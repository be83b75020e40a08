//! The graphics pipeline's PDUs: what a server says on the Graphics channel, and
//! the two things a client says back.
//!
//! MS-RDPEGFX moves the desktop off the share's bitmap updates and onto a dynamic
//! channel of its own. The server creates *surfaces*, maps them onto the output at
//! an origin, draws into them with codecs and copies, and brackets each batch of
//! drawing in a StartFrame and an EndFrame; the client acknowledges every EndFrame,
//! or the server stops sending. A monitor layout is answered by a ResetGraphics that
//! names the new output size, with no reactivation.
//!
//! Every PDU on the channel wears an eight-byte header (command, flags, and the
//! length with the header) and several may arrive at once. So this module reads a
//! *buffer* of PDUs ([`messages`]) rather than one, and decodes each into a
//! [`Message`] the compositor above can act on.
//!
//! # What is decoded and what is only named
//!
//! Every command a server sends is decoded to its fields, whether or not anything
//! above acts on it. A command this client has no reading for at all is
//! [`Message::Other`], carried by number so it can be counted and skipped: the
//! header's length is what makes skipping safe.
//!
//! [MS-RDPEGFX] 2.2.

use vstd::prelude::*;

use super::wire::{
    byte_next, bytes_next, cursor, facing, facing_both, front_faces, le16, le16_at, le32, le32_at, long_next,
    steps, view_steps, views, word_next, Cursor, Malformed, Reader, Step, Writer,
};

verus! {

/// The name the server opens the channel under.
pub const CHANNEL_NAME: &'static str = "Microsoft::Windows::RDS::Graphics";

pub const WHAT: &'static str = "a graphics pipeline PDU";

/// `RDPGFX_HEADER`: cmdId, flags, pduLength.
pub const HEADER: u32 = 8;

/// `cmdId`s, [MS-RDPEGFX] 2.2.1.5.
pub const CMD_WIRE_TO_SURFACE_1: u16 = 0x0001;
pub const CMD_WIRE_TO_SURFACE_2: u16 = 0x0002;
pub const CMD_DELETE_ENCODING_CONTEXT: u16 = 0x0003;
pub const CMD_SOLID_FILL: u16 = 0x0004;
pub const CMD_SURFACE_TO_SURFACE: u16 = 0x0005;
pub const CMD_SURFACE_TO_CACHE: u16 = 0x0006;
pub const CMD_CACHE_TO_SURFACE: u16 = 0x0007;
pub const CMD_EVICT_CACHE_ENTRY: u16 = 0x0008;
pub const CMD_CREATE_SURFACE: u16 = 0x0009;
pub const CMD_DELETE_SURFACE: u16 = 0x000A;
pub const CMD_START_FRAME: u16 = 0x000B;
pub const CMD_END_FRAME: u16 = 0x000C;
pub const CMD_FRAME_ACKNOWLEDGE: u16 = 0x000D;
pub const CMD_RESET_GRAPHICS: u16 = 0x000E;
pub const CMD_MAP_SURFACE_TO_OUTPUT: u16 = 0x000F;
pub const CMD_CACHE_IMPORT_OFFER: u16 = 0x0010;
pub const CMD_CACHE_IMPORT_REPLY: u16 = 0x0011;
pub const CMD_CAPS_ADVERTISE: u16 = 0x0012;
pub const CMD_CAPS_CONFIRM: u16 = 0x0013;
pub const CMD_MAP_SURFACE_TO_WINDOW: u16 = 0x0015;
pub const CMD_QOE_FRAME_ACKNOWLEDGE: u16 = 0x0016;
pub const CMD_MAP_SURFACE_TO_SCALED_OUTPUT: u16 = 0x0017;
pub const CMD_MAP_SURFACE_TO_SCALED_WINDOW: u16 = 0x0018;

/// `codecId`s, [MS-RDPEGFX] 2.2.2.1 and 2.2.2.2.
pub const CODEC_UNCOMPRESSED: u16 = 0x0000;
pub const CODEC_CAVIDEO: u16 = 0x0003;
pub const CODEC_CLEARCODEC: u16 = 0x0008;
pub const CODEC_CAPROGRESSIVE: u16 = 0x0009;
pub const CODEC_PLANAR: u16 = 0x000A;
pub const CODEC_AVC420: u16 = 0x000B;
pub const CODEC_ALPHA: u16 = 0x000C;
pub const CODEC_CAPROGRESSIVE_V2: u16 = 0x000D;
pub const CODEC_AVC444: u16 = 0x000E;
pub const CODEC_AVC444_V2: u16 = 0x000F;

/// `RDPGFX_PIXELFORMAT`: 32 bits a pixel, blue first in memory, with the fourth
/// byte either unused or an alpha.
pub const PIXEL_XRGB_8888: u8 = 0x20;
pub const PIXEL_ARGB_8888: u8 = 0x21;

/// The capability sets this client advertises ([MS-RDPEGFX] 2.2.3.1 and 2.2.3.3) and
/// the flags on them.
pub const CAPVERSION_8: u32 = 0x0008_0004;
pub const CAPVERSION_10: u32 = 0x000A_0002;
/// The client keeps the smaller bitmap cache: 4096 slots and 16 MiB, rather than
/// 25600 and 100 MiB.
pub const CAPS_SMALL_CACHE: u32 = 0x0000_0002;
/// The server is not to send H.264 in either of its shapes. Version 10 and later.
pub const CAPS_AVC_DISABLED: u32 = 0x0000_0020;

/// `queueDepth` in a frame acknowledgement: this client does not report how many
/// frames it holds undrawn, which the server takes as "send as you like".
pub const QUEUE_DEPTH_UNAVAILABLE: u32 = 0x0000_0000;

/// The largest surface or output dimension a server may name:
/// past it a `u16` field has wrapped or a server has lost its mind.
pub const MAX_DIMENSION: u32 = 32_766;

/// The most monitors a ResetGraphics may describe.
pub const MAX_MONITORS: u32 = 16;

/// `RECTANGLE_16`, with exclusive right and bottom edges.
#[derive(Clone, Copy, Debug, PartialEq, Eq)]
pub struct Rect16 {
    pub left: u16,
    pub top: u16,
    pub right: u16,
    pub bottom: u16,
}

impl Rect16 {
    /// Whether the edges are in order.
    pub open spec fn ordered(self) -> bool {
        self.left <= self.right && self.top <= self.bottom
    }

    /// Whether there is anything inside.
    pub open spec fn full(self) -> bool {
        self.left < self.right && self.top < self.bottom
    }

    pub fn width(&self) -> (width: u16)
        requires
            self.left <= self.right,
        ensures
            width == self.right - self.left,
    {
        self.right - self.left
    }

    pub fn height(&self) -> (height: u16)
        requires
            self.top <= self.bottom,
        ensures
            height == self.bottom - self.top,
    {
        self.bottom - self.top
    }
}

/// `RDPGFX_POINT16`.
#[derive(Clone, Copy, Debug, PartialEq, Eq)]
pub struct Point16 {
    pub x: u16,
    pub y: u16,
}

/// What a server said in one PDU.
#[derive(Clone, Debug, PartialEq, Eq)]
#[allow(inconsistent_fields)]
pub enum Message<'a> {
    /// Pixels for one rectangle of a surface, in `codec`.
    WireToSurface1 { surface: u16, codec: u16, format: u8, rect: Rect16, data: &'a [u8] },
    /// Pixels for a surface in a codec that carries its own regions (RemoteFX
    /// Progressive) under an encoding context the server names.
    WireToSurface2 { surface: u16, codec: u16, context: u32, format: u8, data: &'a [u8] },
    DeleteEncodingContext { surface: u16, context: u32 },
    /// Fill these rectangles of a surface with one colour, `[b, g, r, a]`.
    SolidFill { surface: u16, color: [u8; 4], rects: Vec<Rect16> },
    /// Copy one rectangle of `src` to each point of `dst`.
    SurfaceToSurface { src: u16, dst: u16, rect: Rect16, points: Vec<Point16> },
    SurfaceToCache { surface: u16, key: u64, slot: u16, rect: Rect16 },
    CacheToSurface { slot: u16, surface: u16, points: Vec<Point16> },
    EvictCacheEntry { slot: u16 },
    CreateSurface { surface: u16, width: u16, height: u16, format: u8 },
    DeleteSurface { surface: u16 },
    StartFrame { timestamp: u32, frame: u32 },
    EndFrame { frame: u32 },
    /// The output is now this size. Answered to a monitor layout in place of a
    /// Deactivation-Reactivation Sequence.
    ResetGraphics { width: u32, height: u32, monitors: u32 },
    MapSurfaceToOutput { surface: u16, x: u32, y: u32 },
    /// The one capability set the server chose out of those advertised.
    CapsConfirm { version: u32, flags: u32 },
    /// A command this client has no reading for, skipped by its header's length.
    Other { command: u16, length: u32 },
}

/// A [`Message`], its lists and its pixels by their contents.
#[allow(inconsistent_fields)]
pub enum MessageView {
    WireToSurface1 { surface: u16, codec: u16, format: u8, rect: Rect16, data: Seq<u8> },
    WireToSurface2 { surface: u16, codec: u16, context: u32, format: u8, data: Seq<u8> },
    DeleteEncodingContext { surface: u16, context: u32 },
    SolidFill { surface: u16, color: Seq<u8>, rects: Seq<Rect16> },
    SurfaceToSurface { src: u16, dst: u16, rect: Rect16, points: Seq<Point16> },
    SurfaceToCache { surface: u16, key: u64, slot: u16, rect: Rect16 },
    CacheToSurface { slot: u16, surface: u16, points: Seq<Point16> },
    EvictCacheEntry { slot: u16 },
    CreateSurface { surface: u16, width: u16, height: u16, format: u8 },
    DeleteSurface { surface: u16 },
    StartFrame { timestamp: u32, frame: u32 },
    EndFrame { frame: u32 },
    ResetGraphics { width: u32, height: u32, monitors: u32 },
    MapSurfaceToOutput { surface: u16, x: u32, y: u32 },
    CapsConfirm { version: u32, flags: u32 },
    Other { command: u16, length: u32 },
}

impl<'a> View for Message<'a> {
    type V = MessageView;

    open spec fn view(&self) -> MessageView {
        match *self {
            Message::WireToSurface1 { surface, codec, format, rect, data } => {
                MessageView::WireToSurface1 { surface, codec, format, rect, data: data@ }
            },
            Message::WireToSurface2 { surface, codec, context, format, data } => {
                MessageView::WireToSurface2 { surface, codec, context, format, data: data@ }
            },
            Message::DeleteEncodingContext { surface, context } => {
                MessageView::DeleteEncodingContext { surface, context }
            },
            Message::SolidFill { surface, color, rects } => {
                MessageView::SolidFill { surface, color: color@, rects: rects@ }
            },
            Message::SurfaceToSurface { src, dst, rect, points } => {
                MessageView::SurfaceToSurface { src, dst, rect, points: points@ }
            },
            Message::SurfaceToCache { surface, key, slot, rect } => {
                MessageView::SurfaceToCache { surface, key, slot, rect }
            },
            Message::CacheToSurface { slot, surface, points } => {
                MessageView::CacheToSurface { slot, surface, points: points@ }
            },
            Message::EvictCacheEntry { slot } => MessageView::EvictCacheEntry { slot },
            Message::CreateSurface { surface, width, height, format } => {
                MessageView::CreateSurface { surface, width, height, format }
            },
            Message::DeleteSurface { surface } => MessageView::DeleteSurface { surface },
            Message::StartFrame { timestamp, frame } => MessageView::StartFrame { timestamp, frame },
            Message::EndFrame { frame } => MessageView::EndFrame { frame },
            Message::ResetGraphics { width, height, monitors } => {
                MessageView::ResetGraphics { width, height, monitors }
            },
            Message::MapSurfaceToOutput { surface, x, y } => {
                MessageView::MapSurfaceToOutput { surface, x, y }
            },
            Message::CapsConfirm { version, flags } => MessageView::CapsConfirm { version, flags },
            Message::Other { command, length } => MessageView::Other { command, length },
        }
    }
}

pub open spec fn rect_step(c: Cursor) -> Step<Rect16> {
    match c.u16_le() {
        Step::Stop(e) => Step::Stop(e),
        Step::Got(left, c) => match c.u16_le() {
            Step::Stop(e) => Step::Stop(e),
            Step::Got(top, c) => match c.u16_le() {
                Step::Stop(e) => Step::Stop(e),
                Step::Got(right, c) => match c.u16_le() {
                    Step::Stop(e) => Step::Stop(e),
                    Step::Got(bottom, c) => if left >= right {
                        Step::Stop(
                            c.refused(
                                "a rectangle whose right edge is not past its left, at",
                                right as u64,
                            ),
                        )
                    } else if top >= bottom {
                        Step::Stop(
                            c.refused(
                                "a rectangle whose bottom edge is not past its top, at",
                                bottom as u64,
                            ),
                        )
                    } else {
                        Step::Got(Rect16 { left, top, right, bottom }, c)
                    },
                },
            },
        },
    }
}

/// A rectangle with something inside it.
pub fn rect16(r: &mut Reader<'_>) -> (res: Result<Rect16, Malformed>)
    ensures
        steps(res, final(r)@, rect_step(old(r)@)),
        final(r)@.within(),
        res matches Ok(rect) ==> rect.full(),
{
    let left = r.u16_le()?;
    let top = r.u16_le()?;
    let right = r.u16_le()?;
    let bottom = r.u16_le()?;
    if left >= right {
        return Err(r.refuse("a rectangle whose right edge is not past its left, at", right as u64));
    }
    if top >= bottom {
        return Err(r.refuse("a rectangle whose bottom edge is not past its top, at", bottom as u64));
    }
    Ok(Rect16 { left, top, right, bottom })
}

/// `n` more rectangles, after those already got.
pub open spec fn rects_step(c: Cursor, n: nat, got: Seq<Rect16>) -> Step<Seq<Rect16>>
    decreases n,
{
    if n == 0 {
        Step::Got(got, c)
    } else {
        match rect_step(c) {
            Step::Stop(e) => Step::Stop(e),
            Step::Got(rect, c) => rects_step(c, (n - 1) as nat, got.push(rect)),
        }
    }
}

pub fn read_rects(r: &mut Reader<'_>, count: u32) -> (res: Result<Vec<Rect16>, Malformed>)
    ensures
        view_steps(res, final(r)@, rects_step(old(r)@, count as nat, seq![])),
        final(r)@.within(),
        res matches Ok(rects) ==> forall|i: int| 0 <= i < rects@.len() ==> (#[trigger] rects@[i]).full(),
{
    let _ = r.at();
    let mut rects: Vec<Rect16> = Vec::new();
    assert(rects@ =~= seq![]);
    for i in 0..count
        invariant
            rects_step(old(r)@, count as nat, seq![]) == rects_step(r@, (count - i) as nat, rects@),
            r@.within(),
            forall|j: int| 0 <= j < rects@.len() ==> (#[trigger] rects@[j]).full(),
    {
        rects.push(rect16(r)?);
    }
    Ok(rects)
}

pub open spec fn point_step(c: Cursor) -> Step<Point16> {
    match c.u16_le() {
        Step::Stop(e) => Step::Stop(e),
        Step::Got(x, c) => match c.u16_le() {
            Step::Stop(e) => Step::Stop(e),
            Step::Got(y, c) => Step::Got(Point16 { x, y }, c),
        },
    }
}

fn point16(r: &mut Reader<'_>) -> (res: Result<Point16, Malformed>)
    ensures
        steps(res, final(r)@, point_step(old(r)@)),
        final(r)@.within(),
{
    let x = r.u16_le()?;
    let y = r.u16_le()?;
    Ok(Point16 { x, y })
}

/// `n` more points, after those already got.
pub open spec fn points_step(c: Cursor, n: nat, got: Seq<Point16>) -> Step<Seq<Point16>>
    decreases n,
{
    if n == 0 {
        Step::Got(got, c)
    } else {
        match point_step(c) {
            Step::Stop(e) => Step::Stop(e),
            Step::Got(point, c) => points_step(c, (n - 1) as nat, got.push(point)),
        }
    }
}

fn read_points(r: &mut Reader<'_>) -> (res: Result<Vec<Point16>, Malformed>)
    ensures
        view_steps(res, final(r)@, counted_points_step(old(r)@)),
        final(r)@.within(),
{
    let count = r.u16_le()?;
    let ghost start = r@;
    let mut points: Vec<Point16> = Vec::new();
    assert(points@ =~= seq![]);
    for i in 0..count
        invariant
            counted_points_step(old(r)@) == points_step(start, count as nat, seq![]),
            points_step(start, count as nat, seq![]) == points_step(r@, (count - i) as nat, points@),
            r@.within(),
    {
        points.push(point16(r)?);
    }
    Ok(points)
}

/// How many points there are, and the points.
pub open spec fn counted_points_step(c: Cursor) -> Step<Seq<Point16>> {
    match c.u16_le() {
        Step::Stop(e) => Step::Stop(e),
        Step::Got(count, c) => points_step(c, count as nat, seq![]),
    }
}

#[verifier::opaque]
pub open spec fn wire_to_surface_1_spec(c: Cursor) -> Result<MessageView, Malformed> {
    match c.u16_le() {
        Step::Stop(e) => Err(e),
        Step::Got(surface, c) => match c.u16_le() {
            Step::Stop(e) => Err(e),
            Step::Got(codec, c) => match c.u8() {
                Step::Stop(e) => Err(e),
                Step::Got(format, c) => match rect_step(c) {
                    Step::Stop(e) => Err(e),
                    Step::Got(rect, c) => match c.u32_le() {
                        Step::Stop(e) => Err(e),
                        Step::Got(length, c) => match c.bytes(length as int) {
                            Step::Stop(e) => Err(e),
                            Step::Got(data, c) => Ok(MessageView::WireToSurface1 { surface, codec, format, rect, data }),
                        },
                    },
                },
            },
        },
    }
}

#[verifier::opaque]
pub open spec fn wire_to_surface_2_spec(c: Cursor) -> Result<MessageView, Malformed> {
    match c.u16_le() {
        Step::Stop(e) => Err(e),
        Step::Got(surface, c) => match c.u16_le() {
            Step::Stop(e) => Err(e),
            Step::Got(codec, c) => match c.u32_le() {
                Step::Stop(e) => Err(e),
                Step::Got(context, c) => match c.u8() {
                    Step::Stop(e) => Err(e),
                    Step::Got(format, c) => match c.u32_le() {
                        Step::Stop(e) => Err(e),
                        Step::Got(length, c) => match c.bytes(length as int) {
                            Step::Stop(e) => Err(e),
                            Step::Got(data, c) => Ok(MessageView::WireToSurface2 { surface, codec, context, format, data }),
                        },
                    },
                },
            },
        },
    }
}

#[verifier::opaque]
pub open spec fn delete_encoding_context_spec(c: Cursor) -> Result<MessageView, Malformed> {
    match c.u16_le() {
        Step::Stop(e) => Err(e),
        Step::Got(surface, c) => match c.u32_le() {
            Step::Stop(e) => Err(e),
            Step::Got(context, c) => Ok(MessageView::DeleteEncodingContext { surface, context }),
        },
    }
}

#[verifier::opaque]
pub open spec fn solid_fill_spec(c: Cursor) -> Result<MessageView, Malformed> {
    match c.u16_le() {
        Step::Stop(e) => Err(e),
        Step::Got(surface, c) => match c.bytes(4) {
            Step::Stop(e) => Err(e),
            Step::Got(color, c) => match c.u16_le() {
                Step::Stop(e) => Err(e),
                Step::Got(count, c) => match rects_step(c, count as nat, seq![]) {
                    Step::Stop(e) => Err(e),
                    Step::Got(rects, c) => Ok(MessageView::SolidFill { surface, color, rects }),
                },
            },
        },
    }
}

#[verifier::opaque]
pub open spec fn surface_to_surface_spec(c: Cursor) -> Result<MessageView, Malformed> {
    match c.u16_le() {
        Step::Stop(e) => Err(e),
        Step::Got(src, c) => match c.u16_le() {
            Step::Stop(e) => Err(e),
            Step::Got(dst, c) => match rect_step(c) {
                Step::Stop(e) => Err(e),
                Step::Got(rect, c) => match counted_points_step(c) {
                    Step::Stop(e) => Err(e),
                    Step::Got(points, c) => Ok(MessageView::SurfaceToSurface { src, dst, rect, points }),
                },
            },
        },
    }
}

#[verifier::opaque]
pub open spec fn surface_to_cache_spec(c: Cursor) -> Result<MessageView, Malformed> {
    match c.u16_le() {
        Step::Stop(e) => Err(e),
        Step::Got(surface, c) => match c.u32_le() {
            Step::Stop(e) => Err(e),
            Step::Got(low, c) => match c.u32_le() {
                Step::Stop(e) => Err(e),
                Step::Got(high, c) => match c.u16_le() {
                    Step::Stop(e) => Err(e),
                    Step::Got(slot, c) => match rect_step(c) {
                        Step::Stop(e) => Err(e),
                        Step::Got(rect, c) => Ok(
                            MessageView::SurfaceToCache {
                                surface,
                                key: (low + high * 0x1_0000_0000) as u64,
                                slot,
                                rect,
                            },
                        ),
                    },
                },
            },
        },
    }
}

#[verifier::opaque]
pub open spec fn cache_to_surface_spec(c: Cursor) -> Result<MessageView, Malformed> {
    match c.u16_le() {
        Step::Stop(e) => Err(e),
        Step::Got(slot, c) => match c.u16_le() {
            Step::Stop(e) => Err(e),
            Step::Got(surface, c) => match counted_points_step(c) {
                Step::Stop(e) => Err(e),
                Step::Got(points, c) => Ok(MessageView::CacheToSurface { slot, surface, points }),
            },
        },
    }
}

pub open spec fn larger(a: u32, b: u32) -> u32 {
    if a > b { a } else { b }
}

#[verifier::opaque]
pub open spec fn create_surface_spec(c: Cursor) -> Result<MessageView, Malformed> {
    match c.u16_le() {
        Step::Stop(e) => Err(e),
        Step::Got(surface, c) => match c.u16_le() {
            Step::Stop(e) => Err(e),
            Step::Got(width, c) => match c.u16_le() {
                Step::Stop(e) => Err(e),
                Step::Got(height, c) => match c.u8() {
                    Step::Stop(e) => Err(e),
                    Step::Got(format, c) => if format != PIXEL_XRGB_8888 && format != PIXEL_ARGB_8888 {
                        Err(c.refused("a surface pixel format", format as u64))
                    } else if width > MAX_DIMENSION || height > MAX_DIMENSION {
                        Err(c.refused("a surface dimension", larger(width as u32, height as u32) as u64))
                    } else {
                        Ok(MessageView::CreateSurface { surface, width, height, format })
                    },
                },
            },
        },
    }
}

#[verifier::opaque]
pub open spec fn start_frame_spec(c: Cursor) -> Result<MessageView, Malformed> {
    match c.u32_le() {
        Step::Stop(e) => Err(e),
        Step::Got(timestamp, c) => match c.u32_le() {
            Step::Stop(e) => Err(e),
            Step::Got(frame, c) => Ok(MessageView::StartFrame { timestamp, frame }),
        },
    }
}

#[verifier::opaque]
pub open spec fn reset_graphics_spec(c: Cursor) -> Result<MessageView, Malformed> {
    match c.u32_le() {
        Step::Stop(e) => Err(e),
        Step::Got(width, c) => match c.u32_le() {
            Step::Stop(e) => Err(e),
            Step::Got(height, c) => match c.u32_le() {
                Step::Stop(e) => Err(e),
                Step::Got(monitors, c) => if width > MAX_DIMENSION || height > MAX_DIMENSION {
                    Err(c.refused("an output dimension", larger(width, height) as u64))
                } else if monitors > MAX_MONITORS {
                    Err(c.refused("a monitor count", monitors as u64))
                } else {
                    match c.skip(monitors * 20) {
                        Step::Stop(e) => Err(e),
                        Step::Got(_, c) => Ok(MessageView::ResetGraphics { width, height, monitors }),
                    }
                },
            },
        },
    }
}

#[verifier::opaque]
pub open spec fn map_surface_spec(c: Cursor) -> Result<MessageView, Malformed> {
    match c.u16_le() {
        Step::Stop(e) => Err(e),
        Step::Got(surface, c) => match c.u16_le() {
            Step::Stop(e) => Err(e),
            Step::Got(_, c) => match c.u32_le() {
                Step::Stop(e) => Err(e),
                Step::Got(x, c) => match c.u32_le() {
                    Step::Stop(e) => Err(e),
                    Step::Got(y, c) => Ok(MessageView::MapSurfaceToOutput { surface, x, y }),
                },
            },
        },
    }
}

#[verifier::opaque]
pub open spec fn caps_confirm_spec(c: Cursor) -> Result<MessageView, Malformed> {
    match c.u32_le() {
        Step::Stop(e) => Err(e),
        Step::Got(version, c) => match c.u32_le() {
            Step::Stop(e) => Err(e),
            Step::Got(length, c) => if length != 4 {
                Err(c.refused("a capability data length", length as u64))
            } else {
                match c.u32_le() {
                    Step::Stop(e) => Err(e),
                    Step::Got(flags, c) => Ok(MessageView::CapsConfirm { version, flags }),
                }
            },
        },
    }
}

#[verifier::opaque]
pub open spec fn one_u16_spec(c: Cursor, command: u16) -> Result<MessageView, Malformed> {
    match c.u16_le() {
        Step::Stop(e) => Err(e),
        Step::Got(number, c) => if command == CMD_EVICT_CACHE_ENTRY {
            Ok(MessageView::EvictCacheEntry { slot: number })
        } else {
            Ok(MessageView::DeleteSurface { surface: number })
        },
    }
}

#[verifier::opaque]
pub open spec fn end_frame_spec(c: Cursor) -> Result<MessageView, Malformed> {
    match c.u32_le() {
        Step::Stop(e) => Err(e),
        Step::Got(frame, c) => Ok(MessageView::EndFrame { frame }),
    }
}

/// What a PDU's body says, under the command and the length its header gives it.
#[verifier::opaque]
pub open spec fn body_spec(command: u16, length: u32, body: Seq<u8>) -> Result<MessageView, Malformed> {
    let c = cursor(WHAT, body);
    if command == CMD_WIRE_TO_SURFACE_1 {
        wire_to_surface_1_spec(c)
    } else if command == CMD_WIRE_TO_SURFACE_2 {
        wire_to_surface_2_spec(c)
    } else if command == CMD_DELETE_ENCODING_CONTEXT {
        delete_encoding_context_spec(c)
    } else if command == CMD_SOLID_FILL {
        solid_fill_spec(c)
    } else if command == CMD_SURFACE_TO_SURFACE {
        surface_to_surface_spec(c)
    } else if command == CMD_SURFACE_TO_CACHE {
        surface_to_cache_spec(c)
    } else if command == CMD_CACHE_TO_SURFACE {
        cache_to_surface_spec(c)
    } else if command == CMD_EVICT_CACHE_ENTRY || command == CMD_DELETE_SURFACE {
        one_u16_spec(c, command)
    } else if command == CMD_CREATE_SURFACE {
        create_surface_spec(c)
    } else if command == CMD_START_FRAME {
        start_frame_spec(c)
    } else if command == CMD_END_FRAME {
        end_frame_spec(c)
    } else if command == CMD_RESET_GRAPHICS {
        reset_graphics_spec(c)
    } else if command == CMD_MAP_SURFACE_TO_OUTPUT {
        map_surface_spec(c)
    } else if command == CMD_CAPS_CONFIRM {
        caps_confirm_spec(c)
    } else {
        Ok(MessageView::Other { command, length })
    }
}

/// One PDU: its header, and what its body says.
pub open spec fn pdu_step(c: Cursor) -> Step<MessageView> {
    match c.u16_le() {
        Step::Stop(e) => Step::Stop(e),
        Step::Got(command, c) => match c.u16_le() {
            Step::Stop(e) => Step::Stop(e),
            Step::Got(_, c) => match c.u32_le() {
                Step::Stop(e) => Step::Stop(e),
                Step::Got(length, c) => if length < HEADER {
                    Step::Stop(c.refused("a PDU length shorter than its header", length as u64))
                } else {
                    match c.bytes(length - HEADER) {
                        Step::Stop(e) => Step::Stop(e),
                        Step::Got(body, c) => match body_spec(command, length, body) {
                            Err(e) => Step::Stop(e),
                            Ok(message) => Step::Got(message, c),
                        },
                    }
                },
            },
        },
    }
}

fn wire_to_surface_1<'a>(r: &mut Reader<'a>) -> (res: Result<Message<'a>, Malformed>)
    ensures
        views(res, wire_to_surface_1_spec(old(r)@)),
        res matches Ok(message) ==> well_formed(message@),
{
    proof { reveal(wire_to_surface_1_spec); }
    let surface = r.u16_le()?;
    let codec = r.u16_le()?;
    let format = r.u8()?;
    let rect = rect16(r)?;
    let length = r.u32_le()?;
    let data = r.bytes(length as usize)?;
    Ok(Message::WireToSurface1 { surface, codec, format, rect, data })
}

fn wire_to_surface_2<'a>(r: &mut Reader<'a>) -> (res: Result<Message<'a>, Malformed>)
    ensures
        views(res, wire_to_surface_2_spec(old(r)@)),
        res matches Ok(message) ==> well_formed(message@),
{
    proof { reveal(wire_to_surface_2_spec); }
    let surface = r.u16_le()?;
    let codec = r.u16_le()?;
    let context = r.u32_le()?;
    let format = r.u8()?;
    let length = r.u32_le()?;
    let data = r.bytes(length as usize)?;
    Ok(Message::WireToSurface2 { surface, codec, context, format, data })
}

fn delete_encoding_context<'a>(r: &mut Reader<'a>) -> (res: Result<Message<'a>, Malformed>)
    ensures
        views(res, delete_encoding_context_spec(old(r)@)),
        res matches Ok(message) ==> well_formed(message@),
{
    proof { reveal(delete_encoding_context_spec); }
    let surface = r.u16_le()?;
    let context = r.u32_le()?;
    Ok(Message::DeleteEncodingContext { surface, context })
}

fn solid_fill<'a>(r: &mut Reader<'a>) -> (res: Result<Message<'a>, Malformed>)
    ensures
        views(res, solid_fill_spec(old(r)@)),
        res matches Ok(message) ==> well_formed(message@),
{
    proof { reveal(solid_fill_spec); }
    let surface = r.u16_le()?;
    let bgra = r.bytes(4)?;
    let color = [bgra[0], bgra[1], bgra[2], bgra[3]];
    assert(color@ =~= bgra@);
    let count = r.u16_le()?;
    let rects = read_rects(r, count as u32)?;
    Ok(Message::SolidFill { surface, color, rects })
}

fn surface_to_surface<'a>(r: &mut Reader<'a>) -> (res: Result<Message<'a>, Malformed>)
    ensures
        views(res, surface_to_surface_spec(old(r)@)),
        res matches Ok(message) ==> well_formed(message@),
{
    proof { reveal(surface_to_surface_spec); }
    let src = r.u16_le()?;
    let dst = r.u16_le()?;
    let rect = rect16(r)?;
    let points = read_points(r)?;
    Ok(Message::SurfaceToSurface { src, dst, rect, points })
}

fn surface_to_cache<'a>(r: &mut Reader<'a>) -> (res: Result<Message<'a>, Malformed>)
    ensures
        views(res, surface_to_cache_spec(old(r)@)),
        res matches Ok(message) ==> well_formed(message@),
{
    proof { reveal(surface_to_cache_spec); }
    let surface = r.u16_le()?;
    let low = r.u32_le()?;
    let high = r.u32_le()?;
    let key: u64 = low as u64 + high as u64 * 0x1_0000_0000;
    let slot = r.u16_le()?;
    let rect = rect16(r)?;
    Ok(Message::SurfaceToCache { surface, key, slot, rect })
}

fn cache_to_surface<'a>(r: &mut Reader<'a>) -> (res: Result<Message<'a>, Malformed>)
    ensures
        views(res, cache_to_surface_spec(old(r)@)),
        res matches Ok(message) ==> well_formed(message@),
{
    proof { reveal(cache_to_surface_spec); }
    let slot = r.u16_le()?;
    let surface = r.u16_le()?;
    let points = read_points(r)?;
    Ok(Message::CacheToSurface { slot, surface, points })
}

fn create_surface<'a>(r: &mut Reader<'a>) -> (res: Result<Message<'a>, Malformed>)
    ensures
        views(res, create_surface_spec(old(r)@)),
        res matches Ok(message) ==> well_formed(message@),
{
    proof { reveal(create_surface_spec); }
    let surface = r.u16_le()?;
    let width = r.u16_le()?;
    let height = r.u16_le()?;
    let format = r.u8()?;
    if format != PIXEL_XRGB_8888 && format != PIXEL_ARGB_8888 {
        return Err(r.refuse("a surface pixel format", format as u64));
    }
    if width as u32 > MAX_DIMENSION || height as u32 > MAX_DIMENSION {
        let larger: u16 = if width > height { width } else { height };
        return Err(r.refuse("a surface dimension", larger as u64));
    }
    Ok(Message::CreateSurface { surface, width, height, format })
}

fn start_frame<'a>(r: &mut Reader<'a>) -> (res: Result<Message<'a>, Malformed>)
    ensures
        views(res, start_frame_spec(old(r)@)),
        res matches Ok(message) ==> well_formed(message@),
{
    proof { reveal(start_frame_spec); }
    let timestamp = r.u32_le()?;
    let frame = r.u32_le()?;
    Ok(Message::StartFrame { timestamp, frame })
}

fn reset_graphics<'a>(r: &mut Reader<'a>) -> (res: Result<Message<'a>, Malformed>)
    ensures
        views(res, reset_graphics_spec(old(r)@)),
        res matches Ok(message) ==> well_formed(message@),
{
    proof { reveal(reset_graphics_spec); }
    let width = r.u32_le()?;
    let height = r.u32_le()?;
    let monitors = r.u32_le()?;
    if width > MAX_DIMENSION || height > MAX_DIMENSION {
        let larger: u32 = if width > height { width } else { height };
        return Err(r.refuse("an output dimension", larger as u64));
    }
    if monitors > MAX_MONITORS {
        return Err(r.refuse("a monitor count", monitors as u64));
    }
    // The monitor definitions, and the padding that brings the PDU to
    // 340 bytes: neither is read, both have to be there.
    r.skip(monitors as usize * 20)?;
    Ok(Message::ResetGraphics { width, height, monitors })
}

fn map_surface<'a>(r: &mut Reader<'a>) -> (res: Result<Message<'a>, Malformed>)
    ensures
        views(res, map_surface_spec(old(r)@)),
        res matches Ok(message) ==> well_formed(message@),
{
    proof { reveal(map_surface_spec); }
    let surface = r.u16_le()?;
    r.u16_le()?; // reserved
    let x = r.u32_le()?;
    let y = r.u32_le()?;
    Ok(Message::MapSurfaceToOutput { surface, x, y })
}

fn caps_confirm<'a>(r: &mut Reader<'a>) -> (res: Result<Message<'a>, Malformed>)
    ensures
        views(res, caps_confirm_spec(old(r)@)),
        res matches Ok(message) ==> well_formed(message@),
{
    proof { reveal(caps_confirm_spec); }
    let version = r.u32_le()?;
    let length = r.u32_le()?;
    if length != 4 {
        return Err(r.refuse("a capability data length", length as u64));
    }
    let flags = r.u32_le()?;
    Ok(Message::CapsConfirm { version, flags })
}

/// What the body of a PDU says.
fn read_body<'a>(command: u16, length: u32, body: &'a [u8]) -> (res: Result<Message<'a>, Malformed>)
    ensures
        views(res, body_spec(command, length, body@)),
        res matches Ok(message) ==> well_formed(message@),
{
    proof {
        reveal(body_spec);
        reveal(one_u16_spec);
        reveal(end_frame_spec);
    }
    let mut r = Reader::new(WHAT, body);
    match command {
        CMD_WIRE_TO_SURFACE_1 => wire_to_surface_1(&mut r),
        CMD_WIRE_TO_SURFACE_2 => wire_to_surface_2(&mut r),
        CMD_DELETE_ENCODING_CONTEXT => delete_encoding_context(&mut r),
        CMD_SOLID_FILL => solid_fill(&mut r),
        CMD_SURFACE_TO_SURFACE => surface_to_surface(&mut r),
        CMD_SURFACE_TO_CACHE => surface_to_cache(&mut r),
        CMD_CACHE_TO_SURFACE => cache_to_surface(&mut r),
        CMD_EVICT_CACHE_ENTRY => {
            let slot = r.u16_le()?;
            Ok(Message::EvictCacheEntry { slot })
        },
        CMD_CREATE_SURFACE => create_surface(&mut r),
        CMD_DELETE_SURFACE => {
            let surface = r.u16_le()?;
            Ok(Message::DeleteSurface { surface })
        },
        CMD_START_FRAME => start_frame(&mut r),
        CMD_END_FRAME => {
            let frame = r.u32_le()?;
            Ok(Message::EndFrame { frame })
        },
        CMD_RESET_GRAPHICS => reset_graphics(&mut r),
        CMD_MAP_SURFACE_TO_OUTPUT => map_surface(&mut r),
        CMD_CAPS_CONFIRM => caps_confirm(&mut r),
        other => Ok(Message::Other { command: other, length }),
    }
}

/// What every decoded message keeps to: its rectangles have something inside them, and
/// no side is longer than a server may name.
pub open spec fn well_formed(message: MessageView) -> bool {
    match message {
        MessageView::WireToSurface1 { rect, .. } => rect.full(),
        MessageView::SolidFill { rects, color, .. } => color.len() == 4 && forall|i: int|
            0 <= i < rects.len() ==> (#[trigger] rects[i]).full(),
        MessageView::SurfaceToSurface { rect, .. } => rect.full(),
        MessageView::SurfaceToCache { rect, .. } => rect.full(),
        MessageView::CreateSurface { width, height, .. } => width <= MAX_DIMENSION && height
            <= MAX_DIMENSION,
        MessageView::ResetGraphics { width, height, monitors } => width <= MAX_DIMENSION && height
            <= MAX_DIMENSION && monitors <= MAX_MONITORS,
        _ => true,
    }
}

/// The PDUs in one channel buffer, in order.
///
/// A PDU that does not decode ends the walk: the buffer's remainder is at an offset the
/// failing header named, and nothing after a bad header is trustworthy.
pub fn messages(buffer: &[u8]) -> (all: Messages<'_>)
    ensures
        all.at() == cursor(WHAT, buffer@),
        !all.has_failed(),
        all.ahead() == messages_from(cursor(WHAT, buffer@)),
{
    Messages { r: Reader::new(WHAT, buffer), failed: false }
}

/// The PDUs of a buffer that have not been read yet.
pub struct Messages<'a> {
    r: Reader<'a>,
    failed: bool,
}

impl<'a> Messages<'a> {
    /// Where the next PDU starts.
    pub closed spec fn at(&self) -> Cursor {
        self.r@
    }

    /// Whether a PDU did not decode.
    pub closed spec fn has_failed(&self) -> bool {
        self.failed
    }

    /// The PDUs ahead, and what is wrong with the one after them, if one does not decode.
    pub open spec fn ahead(&self) -> (Seq<MessageView>, Option<Malformed>) {
        if self.has_failed() { (seq![], None) } else { messages_from(self.at()) }
    }

    /// The next PDU, or `None` at the end of the buffer or past one that did not decode.
    pub fn next(&mut self) -> (res: Option<Result<Message<'a>, Malformed>>)
        ensures
            match res {
                None => (old(self).has_failed() || old(self).at().left() == 0) && *final(self) == *old(self),
                Some(next) => {
                    &&& !old(self).has_failed() && old(self).at().left() != 0
                    &&& final(self).has_failed() == next is Err
                    &&& view_steps(next, final(self).at(), pdu_step(old(self).at()))
                },
            },
            match res {
                None => old(self).ahead() == (Seq::<MessageView>::empty(), None::<Malformed>),
                Some(Ok(message)) => old(self).ahead() == (
                    seq![message@] + final(self).ahead().0,
                    final(self).ahead().1,
                ),
                Some(Err(e)) => old(self).ahead() == (Seq::<MessageView>::empty(), Some(e)),
            },
            res matches Some(Ok(message)) ==> well_formed(message@),
            res matches Some(Ok(_)) ==> final(self).at().left() < old(self).at().left(),
            final(self).at().within(),
    {
        if self.failed || self.r.is_empty() {
            let _ = self.r.at();
            return None;
        }
        let next = self.pdu();
        self.failed = next.is_err();
        Some(next)
    }

    fn pdu(&mut self) -> (res: Result<Message<'a>, Malformed>)
        ensures
            view_steps(res, final(self).at(), pdu_step(old(self).at())),
            res matches Ok(message) ==> well_formed(message@),
            res is Ok ==> final(self).at().left() < old(self).at().left(),
            final(self).at().within(),
    {
        let command = self.r.u16_le()?;
        let _flags = self.r.u16_le()?;
        let length = self.r.u32_le()?;
        if length < HEADER {
            return Err(self.r.refuse("a PDU length shorter than its header", length as u64));
        }
        let body = self.r.bytes((length - HEADER) as usize)?;
        read_body(command, length, body)
    }
}

/// A PDU with its header.
pub open spec fn pdu_bytes(command: u16, body: Seq<u8>) -> Seq<u8> {
    le16(command) + le16(0) + le32((HEADER + body.len()) as u32) + body
}

/// One PDU with its header, ready to be wrapped for the channel.
pub fn pdu(command: u16, body: &[u8]) -> (pdu: Vec<u8>)
    requires
        HEADER + body@.len() <= u32::MAX,
    ensures
        pdu@ == pdu_bytes(command, body@),
{
    let length: u32 = HEADER + body.len() as u32;
    let mut w = Writer::with_capacity(length as usize);
    w.u16_le(command);
    w.u16_le(0); // flags
    w.u32_le(length);
    w.bytes(body);
    assert(w@ =~= pdu_bytes(command, body@));
    w.finish()
}

/// One capability set: its version, how long its flags are, and its flags.
pub open spec fn capability_bytes(version: u32, flags: u32) -> Seq<u8> {
    le32(version) + le32(4) + le32(flags)
}

/// What this client can take: version 8 and version 10, the small cache, and no H.264.
///
/// Version 8 alone would have a Windows host draw with RemoteFX Progressive and
/// planar; version 10 adds nothing this client has to decode. Its point is
/// `AVC_DISABLED`, which is a version-10 flag, so that a host which would otherwise
/// choose H.264 is told not to. `THINCLIENT` is deliberately not set: a current host
/// ignores it, and an older one would answer it with RemoteFX rather than the
/// progressive form.
pub fn caps_advertise() -> (bytes: Vec<u8>)
    ensures
        bytes@ == pdu_bytes(
            CMD_CAPS_ADVERTISE,
            le16(2) + capability_bytes(CAPVERSION_8, CAPS_SMALL_CACHE) + capability_bytes(
                CAPVERSION_10,
                CAPS_SMALL_CACHE | CAPS_AVC_DISABLED,
            ),
        ),
{
    let mut w = Writer::with_capacity(26);
    w.u16_le(2);
    w.u32_le(CAPVERSION_8);
    w.u32_le(4); // capsDataLength
    w.u32_le(CAPS_SMALL_CACHE);
    w.u32_le(CAPVERSION_10);
    w.u32_le(4); // capsDataLength
    w.u32_le(CAPS_SMALL_CACHE | CAPS_AVC_DISABLED);
    let body = w.finish();
    assert(body@ =~= le16(2) + capability_bytes(CAPVERSION_8, CAPS_SMALL_CACHE) + capability_bytes(
        CAPVERSION_10,
        CAPS_SMALL_CACHE | CAPS_AVC_DISABLED,
    ));
    pdu(CMD_CAPS_ADVERTISE, body.as_slice())
}

/// The acknowledgement every EndFrame is owed. `decoded` is how many frames this
/// client has finished in all, which the server uses to notice a client that has
/// fallen behind.
pub fn frame_acknowledge(frame: u32, decoded: u32) -> (bytes: Vec<u8>)
    ensures
        bytes@ == pdu_bytes(
            CMD_FRAME_ACKNOWLEDGE,
            le32(QUEUE_DEPTH_UNAVAILABLE) + le32(frame) + le32(decoded),
        ),
        bytes@.len() == 20,
        le16_at(bytes@, 0) == 13,
        le32_at(bytes@, 4) == 20,
        le32_at(bytes@, 8) == 0,
        le32_at(bytes@, 12) == frame,
        le32_at(bytes@, 16) == decoded,
{
    let mut w = Writer::with_capacity(12);
    w.u32_le(QUEUE_DEPTH_UNAVAILABLE);
    w.u32_le(frame);
    w.u32_le(decoded);
    let body = w.finish();
    assert(body@ =~= le32(QUEUE_DEPTH_UNAVAILABLE) + le32(frame) + le32(decoded));
    proof {
        let (f, d, l) = (le32(frame), le32(decoded), le32(20));
        let all = pdu_bytes(CMD_FRAME_ACKNOWLEDGE, body@);
        assert(all[4] == l[0] && all[5] == l[1] && all[6] == l[2] && all[7] == l[3]);
        assert(forall|i: int| 0 <= i < 12 ==> #[trigger] body@[i] == all[8 + i]);
        assert(body@[4] == f[0] && body@[5] == f[1] && body@[6] == f[2] && body@[7] == f[3]);
        assert(body@[8] == d[0] && body@[9] == d[1] && body@[10] == d[2] && body@[11] == d[3]);
        assert(f[0] + 0x100 * f[1] + 0x1_0000 * f[2] + 0x100_0000 * f[3] == frame);
        assert(d[0] + 0x100 * d[1] + 0x1_0000 * d[2] + 0x100_0000 * d[3] == decoded);
    }
    pdu(CMD_FRAME_ACKNOWLEDGE, body.as_slice())
}

/// A codec's name, for a log line.
pub open spec fn codec_name_spec(codec: u16) -> &'static str {
    if codec == CODEC_UNCOMPRESSED {
        "Uncompressed"
    } else if codec == CODEC_CAVIDEO {
        "RemoteFX"
    } else if codec == CODEC_CLEARCODEC {
        "ClearCodec"
    } else if codec == CODEC_CAPROGRESSIVE {
        "Progressive"
    } else if codec == CODEC_PLANAR {
        "Planar"
    } else if codec == CODEC_AVC420 {
        "AVC420"
    } else if codec == CODEC_ALPHA {
        "Alpha"
    } else if codec == CODEC_CAPROGRESSIVE_V2 {
        "ProgressiveV2"
    } else if codec == CODEC_AVC444 {
        "AVC444"
    } else if codec == CODEC_AVC444_V2 {
        "AVC444v2"
    } else {
        "unknown"
    }
}

/// A codec's name, for a log line.
pub fn codec_name(codec: u16) -> (name: &'static str)
    ensures
        name == codec_name_spec(codec),
{
    match codec {
        CODEC_UNCOMPRESSED => "Uncompressed",
        CODEC_CAVIDEO => "RemoteFX",
        CODEC_CLEARCODEC => "ClearCodec",
        CODEC_CAPROGRESSIVE => "Progressive",
        CODEC_PLANAR => "Planar",
        CODEC_AVC420 => "AVC420",
        CODEC_ALPHA => "Alpha",
        CODEC_CAPROGRESSIVE_V2 => "ProgressiveV2",
        CODEC_AVC444 => "AVC444",
        CODEC_AVC444_V2 => "AVC444v2",
        _ => "unknown",
    }
}

/// A command's name, for a log line.
pub open spec fn command_name_spec(command: u16) -> &'static str {
    if command == CMD_WIRE_TO_SURFACE_1 {
        "WireToSurface1"
    } else if command == CMD_WIRE_TO_SURFACE_2 {
        "WireToSurface2"
    } else if command == CMD_DELETE_ENCODING_CONTEXT {
        "DeleteEncodingContext"
    } else if command == CMD_SOLID_FILL {
        "SolidFill"
    } else if command == CMD_SURFACE_TO_SURFACE {
        "SurfaceToSurface"
    } else if command == CMD_SURFACE_TO_CACHE {
        "SurfaceToCache"
    } else if command == CMD_CACHE_TO_SURFACE {
        "CacheToSurface"
    } else if command == CMD_EVICT_CACHE_ENTRY {
        "EvictCacheEntry"
    } else if command == CMD_CREATE_SURFACE {
        "CreateSurface"
    } else if command == CMD_DELETE_SURFACE {
        "DeleteSurface"
    } else if command == CMD_START_FRAME {
        "StartFrame"
    } else if command == CMD_END_FRAME {
        "EndFrame"
    } else if command == CMD_FRAME_ACKNOWLEDGE {
        "FrameAcknowledge"
    } else if command == CMD_RESET_GRAPHICS {
        "ResetGraphics"
    } else if command == CMD_MAP_SURFACE_TO_OUTPUT {
        "MapSurfaceToOutput"
    } else if command == CMD_CACHE_IMPORT_OFFER {
        "CacheImportOffer"
    } else if command == CMD_CACHE_IMPORT_REPLY {
        "CacheImportReply"
    } else if command == CMD_CAPS_ADVERTISE {
        "CapsAdvertise"
    } else if command == CMD_CAPS_CONFIRM {
        "CapsConfirm"
    } else if command == CMD_MAP_SURFACE_TO_WINDOW {
        "MapSurfaceToWindow"
    } else if command == CMD_QOE_FRAME_ACKNOWLEDGE {
        "QoeFrameAcknowledge"
    } else if command == CMD_MAP_SURFACE_TO_SCALED_OUTPUT {
        "MapSurfaceToScaledOutput"
    } else if command == CMD_MAP_SURFACE_TO_SCALED_WINDOW {
        "MapSurfaceToScaledWindow"
    } else {
        "unknown"
    }
}

/// A command's name, for a log line.
pub fn command_name(command: u16) -> (name: &'static str)
    ensures
        name == command_name_spec(command),
{
    match command {
        CMD_WIRE_TO_SURFACE_1 => "WireToSurface1",
        CMD_WIRE_TO_SURFACE_2 => "WireToSurface2",
        CMD_DELETE_ENCODING_CONTEXT => "DeleteEncodingContext",
        CMD_SOLID_FILL => "SolidFill",
        CMD_SURFACE_TO_SURFACE => "SurfaceToSurface",
        CMD_SURFACE_TO_CACHE => "SurfaceToCache",
        CMD_CACHE_TO_SURFACE => "CacheToSurface",
        CMD_EVICT_CACHE_ENTRY => "EvictCacheEntry",
        CMD_CREATE_SURFACE => "CreateSurface",
        CMD_DELETE_SURFACE => "DeleteSurface",
        CMD_START_FRAME => "StartFrame",
        CMD_END_FRAME => "EndFrame",
        CMD_FRAME_ACKNOWLEDGE => "FrameAcknowledge",
        CMD_RESET_GRAPHICS => "ResetGraphics",
        CMD_MAP_SURFACE_TO_OUTPUT => "MapSurfaceToOutput",
        CMD_CACHE_IMPORT_OFFER => "CacheImportOffer",
        CMD_CACHE_IMPORT_REPLY => "CacheImportReply",
        CMD_CAPS_ADVERTISE => "CapsAdvertise",
        CMD_CAPS_CONFIRM => "CapsConfirm",
        CMD_MAP_SURFACE_TO_WINDOW => "MapSurfaceToWindow",
        CMD_QOE_FRAME_ACKNOWLEDGE => "QoeFrameAcknowledge",
        CMD_MAP_SURFACE_TO_SCALED_OUTPUT => "MapSurfaceToScaledOutput",
        CMD_MAP_SURFACE_TO_SCALED_WINDOW => "MapSurfaceToScaledWindow",
        _ => "unknown",
    }
}

/// A PDU is read as its body says, and the next one starts where its length says it
/// ends, whatever its command.
pub proof fn a_pdu_is_delimited_by_its_length(c: Cursor, command: u16, body: Seq<u8>)
    requires
        HEADER + body.len() <= u32::MAX,
        c.faces(pdu_bytes(command, body)),
    ensures
        match body_spec(command, (HEADER + body.len()) as u32, body) {
            Ok(message) => pdu_step(c) == Step::Got(message, c.plus(HEADER + body.len())),
            Err(e) => pdu_step(c) == Step::<MessageView>::Stop(e),
        },
{
    let length = le32((HEADER + body.len()) as u32);
    facing_both(c, le16(command) + le16(0) + length, body);
    facing_both(c, le16(command) + le16(0), length);
    facing_both(c, le16(command), le16(0));
    facing(c, le16(command));
    assert(c.bytes[c.at + 0] == le16(command)[0]);
    assert(c.bytes[c.at + 1] == le16(command)[1]);
    let l = c.plus(4);
    assert(l == c.plus((le16(command) + le16(0)).len() as int));
    facing(l, length);
    assert(l.bytes[l.at + 0] == length[0]);
    assert(l.bytes[l.at + 1] == length[1]);
    assert(l.bytes[l.at + 2] == length[2]);
    assert(l.bytes[l.at + 3] == length[3]);
    assert(c.plus(2).plus(2) == l);
    assert(l.plus(4) == c.plus(8));
    assert(c.plus(8).plus(body.len() as int) == c.plus(HEADER + body.len()));
}

/// The PDUs of a buffer from a place on, in order, and what was wrong with the one after
/// them, if one did not decode: what taking the next until there is none comes to.
pub open spec fn messages_from(c: Cursor) -> (Seq<MessageView>, Option<Malformed>)
    decreases c.left(),
{
    if c.left() == 0 {
        (seq![], None)
    } else {
        match pdu_step(c) {
            Step::Stop(e) => (seq![], Some(e)),
            Step::Got(message, after) => if 0 <= after.left() < c.left() {
                let (rest, e) = messages_from(after);
                (seq![message] + rest, e)
            } else {
                (seq![message], None)
            },
        }
    }
}

/// The same fault, `by` bytes further into a buffer: one that runs past the end says where.
pub open spec fn further(e: Malformed, by: int) -> Malformed {
    match e {
        Malformed::Short { what, len, at, need } => Malformed::Short {
            what,
            len: (len + by) as usize,
            at: (at + by) as usize,
            need,
        },
        _ => e,
    }
}

/// Whether two buffers come to the same fault, or to the same one further in.
pub open spec fn same_fault(e: Option<Malformed>, f: Option<Malformed>, by: int) -> bool {
    match (e, f) {
        (None, None) => true,
        (Some(e), Some(f)) => f == e || f == further(e, by),
        _ => false,
    }
}

/// A place faces what another does, and maybe more.
spec fn alike(c: Cursor, d: Cursor) -> bool {
    &&& c.what == d.what
    &&& 0 <= c.at && 0 <= d.at
    &&& 0 <= c.left() <= d.left()
    &&& d.bytes.len() <= usize::MAX
    &&& c.at <= d.at && c.bytes.len() <= d.bytes.len()
    &&& forall|i: int| #![trigger c.bytes[c.at + i]] 0 <= i < c.left() ==> c.bytes[c.at + i] == d.bytes[d.at + i]
}

proof fn alike_reads_alike(c: Cursor, d: Cursor)
    requires
        alike(c, d),
    ensures
        match pdu_step(c) {
            Step::Got(message, after) => {
                &&& pdu_step(d) == Step::Got(message, d.plus(after.at - c.at))
                &&& after == c.plus(after.at - c.at)
                &&& c.at < after.at <= c.bytes.len()
            },
            Step::Stop(e) => c.left() == d.left() ==> match pdu_step(d) {
                Step::Got(_, _) => false,
                Step::Stop(f) => f == e || f == further(e, d.at - c.at),
            },
        },
{
    if c.left() >= 8 {
        assert(c.bytes[c.at + 0] == d.bytes[d.at + 0] && c.bytes[c.at + 1] == d.bytes[d.at + 1]);
        assert(le16_at(c.bytes, c.at) == le16_at(d.bytes, d.at));
        assert(c.bytes[c.at + 4] == d.bytes[d.at + 4] && c.bytes[c.at + 5] == d.bytes[d.at + 5]);
        assert(c.bytes[c.at + 6] == d.bytes[d.at + 6] && c.bytes[c.at + 7] == d.bytes[d.at + 7]);
        assert(le32_at(c.bytes, c.at + 4) == le32_at(d.bytes, d.at + 4));
        let length = le32_at(c.bytes, c.at + 4);
        let (c8, d8) = (c.plus(2).plus(2).plus(4), d.plus(2).plus(2).plus(4));
        if length >= HEADER && c8.left() >= length - HEADER {
            let n = length - HEADER;
            assert(c8.bytes.subrange(c8.at, c8.at + n) =~= d8.bytes.subrange(d8.at, d8.at + n)) by {
                let (x, y) = (
                    c8.bytes.subrange(c8.at, c8.at + n),
                    d8.bytes.subrange(d8.at, d8.at + n),
                );
                assert forall|i: int| 0 <= i < n implies #[trigger] x[i] == y[i] by {
                    assert(c.bytes[c.at + (8 + i)] == d.bytes[d.at + (8 + i)]);
                }
            }
        }
    }
}

proof fn alike_goes_on(c: Cursor, d: Cursor, n: int)
    requires
        alike(c, d),
        0 <= n <= c.left(),
    ensures
        alike(c.plus(n), d.plus(n)),
{
    let (e, f) = (c.plus(n), d.plus(n));
    assert forall|i: int| #![trigger e.bytes[e.at + i]] 0 <= i < e.left() implies e.bytes[e.at + i]
        == f.bytes[f.at + i] by {
        assert(c.bytes[c.at + (n + i)] == d.bytes[d.at + (n + i)]);
    }
}

proof fn the_rest_follows(c: Cursor, d: Cursor)
    requires
        alike(c, d),
        messages_from(c).1 is None,
    ensures
        ({
            let rest = messages_from(d.plus(c.left()));
            messages_from(d) == (messages_from(c).0 + rest.0, rest.1)
        }),
    decreases c.left(),
{
    if c.left() == 0 {
        assert(d.plus(0) == d);
        assert(messages_from(c).0 + messages_from(d).0 =~= messages_from(d).0);
    } else {
        alike_reads_alike(c, d);
        match pdu_step(c) {
            Step::Stop(_) => {},
            Step::Got(message, after) => {
                let n = after.at - c.at;
                alike_goes_on(c, d, n);
                the_rest_follows(after, d.plus(n));
                assert(d.plus(n).plus(after.left()) == d.plus(c.left()));
                let rest = messages_from(d.plus(c.left()));
                assert(seq![message] + (messages_from(after).0 + rest.0) =~= seq![message] + messages_from(
                    after,
                ).0 + rest.0);
            },
        }
    }
}

proof fn alike_is_read_alike(c: Cursor, d: Cursor)
    requires
        alike(c, d),
        c.left() == d.left(),
    ensures
        messages_from(d).0 == messages_from(c).0,
        same_fault(messages_from(c).1, messages_from(d).1, d.at - c.at),
    decreases c.left(),
{
    if c.left() != 0 {
        alike_reads_alike(c, d);
        match pdu_step(c) {
            Step::Stop(_) => {},
            Step::Got(_, after) => {
                let n = after.at - c.at;
                alike_goes_on(c, d, n);
                alike_is_read_alike(after, d.plus(n));
            },
        }
    }
}

/// The PDUs of two buffers one after the other, where all of the first decode, are those of
/// the first and then those of the second, up to one that does not decode. The fault of
/// that one is the same, but that one that runs past the end says how far in that is. An
/// empty buffer has none.
pub proof fn buffers_are_read_one_after_the_other(a: Seq<u8>, b: Seq<u8>)
    requires
        (a + b).len() <= usize::MAX,
        messages_from(cursor(WHAT, a)).1 is None,
    ensures
        ({
            let (one, other) = (messages_from(cursor(WHAT, a)), messages_from(cursor(WHAT, b)));
            let both = messages_from(cursor(WHAT, a + b));
            both.0 == one.0 + other.0 && same_fault(other.1, both.1, a.len() as int)
        }),
        messages_from(cursor(WHAT, seq![])) == (Seq::<MessageView>::empty(), None::<Malformed>),
{
    let whole = cursor(WHAT, a + b);
    assert(alike(cursor(WHAT, a), whole));
    the_rest_follows(cursor(WHAT, a), whole);
    let d = whole.plus(a.len() as int);
    let c = cursor(WHAT, b);
    assert forall|i: int| #![trigger c.bytes[c.at + i]] 0 <= i < c.left() implies c.bytes[c.at + i]
        == d.bytes[d.at + i] by {}
    alike_is_read_alike(c, d);
}

/// A rectangle as it is sent: its left and top edges, and then its right and bottom ones.
pub open spec fn rect_bytes(rect: Rect16) -> Seq<u8> {
    le16(rect.left) + (le16(rect.top) + (le16(rect.right) + le16(rect.bottom)))
}

pub open spec fn rects_bytes(rects: Seq<Rect16>) -> Seq<u8>
    decreases rects.len(),
{
    if rects.len() == 0 {
        seq![]
    } else {
        rect_bytes(rects[0]) + rects_bytes(rects.skip(1))
    }
}

/// A point as it is sent: its column and then its row.
pub open spec fn points_bytes(points: Seq<Point16>) -> Seq<u8>
    decreases points.len(),
{
    if points.len() == 0 {
        seq![]
    } else {
        le16(points[0].x) + (le16(points[0].y) + points_bytes(points.skip(1)))
    }
}

proof fn a_rectangle_is_next(c: Cursor, rect: Rect16, rest: Seq<u8>)
    requires
        rect.left < rect.right,
        rect.top < rect.bottom,
        c.faces(rect_bytes(rect) + rest),
    ensures
        rect_step(c) == Step::Got(rect, c.plus(8)),
        c.plus(8).faces(rest),
{
    let s3 = le16(rect.bottom) + rest;
    let s2 = le16(rect.right) + s3;
    let s1 = le16(rect.top) + s2;
    assert(rect_bytes(rect) + rest =~= le16(rect.left) + s1);
    word_next(c, rect.left, s1);
    let c1 = c.plus(2);
    word_next(c1, rect.top, s2);
    let c2 = c1.plus(2);
    word_next(c2, rect.right, s3);
    let c3 = c2.plus(2);
    word_next(c3, rect.bottom, rest);
    assert(c3.plus(2) == c.plus(8));
}

/// Rectangles read back in the order they were sent.
pub proof fn rectangles_read_back(c: Cursor, rects: Seq<Rect16>, got: Seq<Rect16>, rest: Seq<u8>)
    requires
        forall|i: int|
            0 <= i < rects.len() ==> (#[trigger] rects[i]).left < rects[i].right && rects[i].top < rects[i].bottom,
        c.faces(rects_bytes(rects) + rest),
    ensures
        rects_step(c, rects.len(), got) == Step::Got(got + rects, c.plus(8 * rects.len() as int)),
        c.plus(8 * rects.len() as int).faces(rest),
    decreases rects.len(),
{
    if rects.len() == 0 {
        assert(got + rects =~= got);
        assert(rects_bytes(rects) + rest =~= rest);
    } else {
        let (first, more) = (rects[0], rects.skip(1));
        assert(rects_bytes(rects) + rest =~= rect_bytes(first) + (rects_bytes(more) + rest));
        a_rectangle_is_next(c, first, rects_bytes(more) + rest);
        assert forall|i: int| 0 <= i < more.len() implies (#[trigger] more[i]).left < more[i].right && more[i].top
            < more[i].bottom by {
            assert(more[i] == rects[i + 1]);
        }
        rectangles_read_back(c.plus(8), more, got.push(first), rest);
        assert(got.push(first) + more =~= got + rects);
        assert(c.plus(8).plus(8 * more.len() as int) == c.plus(8 * rects.len() as int));
    }
}

/// Points read back in the order they were sent.
pub proof fn points_read_back(c: Cursor, points: Seq<Point16>, got: Seq<Point16>)
    requires
        c.faces(points_bytes(points)),
    ensures
        points_step(c, points.len(), got) matches Step::Got(list, _) && list == got + points,
    decreases points.len(),
{
    if points.len() == 0 {
        assert(got + points =~= got);
    } else {
        let (first, more) = (points[0], points.skip(1));
        word_next(c, first.x, le16(first.y) + points_bytes(more));
        word_next(c.plus(2), first.y, points_bytes(more));
        points_read_back(c.plus(2).plus(2), more, got.push(first));
        assert(got.push(first) + more =~= got + points);
    }
}

/// A PDU's command.
pub open spec fn command_of(m: MessageView) -> u16 {
    match m {
        MessageView::WireToSurface1 { .. } => 1,
        MessageView::WireToSurface2 { .. } => 2,
        MessageView::DeleteEncodingContext { .. } => 3,
        MessageView::SolidFill { .. } => 4,
        MessageView::SurfaceToSurface { .. } => 5,
        MessageView::SurfaceToCache { .. } => 6,
        MessageView::CacheToSurface { .. } => 7,
        MessageView::EvictCacheEntry { .. } => 8,
        MessageView::CreateSurface { .. } => 9,
        MessageView::DeleteSurface { .. } => 10,
        MessageView::StartFrame { .. } => 11,
        MessageView::EndFrame { .. } => 12,
        MessageView::ResetGraphics { .. } => 14,
        MessageView::MapSurfaceToOutput { .. } => 15,
        MessageView::CapsConfirm { .. } => 19,
        MessageView::Other { command, .. } => command,
    }
}

/// What a PDU carries, as it is sent: `more` is what this client passes over, which is the
/// monitors of an output, the padding before where a surface is mapped, and the whole of a PDU
/// it does not read.
pub open spec fn sent_bytes(m: MessageView, more: Seq<u8>) -> Seq<u8> {
    match m {
        MessageView::WireToSurface1 { surface, codec, format, rect, data } => le16(surface) + (le16(codec) + (seq![
            format,
        ] + (rect_bytes(rect) + (le32(data.len() as u32) + data)))),
        MessageView::WireToSurface2 { surface, codec, context, format, data } => le16(surface) + (le16(codec) + (
        le32(context) + (seq![format] + (le32(data.len() as u32) + data)))),
        MessageView::DeleteEncodingContext { surface, context } => le16(surface) + le32(context),
        MessageView::SolidFill { surface, color, rects } => le16(surface) + (color + (le16(rects.len() as u16)
            + rects_bytes(rects))),
        MessageView::SurfaceToSurface { src, dst, rect, points } => le16(src) + (le16(dst) + (rect_bytes(rect) + (
        le16(points.len() as u16) + points_bytes(points)))),
        MessageView::SurfaceToCache { surface, key, slot, rect } => le16(surface) + (le32(
            (key % 0x1_0000_0000) as u32,
        ) + (le32((key / 0x1_0000_0000) as u32) + (le16(slot) + rect_bytes(rect)))),
        MessageView::CacheToSurface { slot, surface, points } => le16(slot) + (le16(surface) + (le16(
            points.len() as u16,
        ) + points_bytes(points))),
        MessageView::EvictCacheEntry { slot } => le16(slot),
        MessageView::CreateSurface { surface, width, height, format } => le16(surface) + (le16(width) + (le16(height)
            + seq![format])),
        MessageView::DeleteSurface { surface } => le16(surface),
        MessageView::StartFrame { timestamp, frame } => le32(timestamp) + le32(frame),
        MessageView::EndFrame { frame } => le32(frame),
        MessageView::ResetGraphics { width, height, monitors } => le32(width) + (le32(height) + (le32(monitors)
            + more)),
        MessageView::MapSurfaceToOutput { surface, x, y } => le16(surface) + (more + (le32(x) + le32(y))),
        MessageView::CapsConfirm { version, flags } => le32(version) + (le32(4) + le32(flags)),
        MessageView::Other { .. } => more,
    }
}

/// What a host may send: lengths that fit their fields, rectangles with something in them,
/// pixels of one of the two formats, and nothing wider or higher than 32766.
pub open spec fn sendable(m: MessageView, more: Seq<u8>) -> bool {
    match m {
        MessageView::WireToSurface1 { rect, data, .. } => rect.left < rect.right && rect.top < rect.bottom
            && data.len() <= 0xFFFF_FFFF,
        MessageView::WireToSurface2 { data, .. } => data.len() <= 0xFFFF_FFFF,
        MessageView::SolidFill { color, rects, .. } => color.len() == 4 && rects.len() <= 0xFFFF && forall|i: int|
            0 <= i < rects.len() ==> (#[trigger] rects[i]).left < rects[i].right && rects[i].top < rects[i].bottom,
        MessageView::SurfaceToSurface { rect, points, .. } => rect.left < rect.right && rect.top < rect.bottom
            && points.len() <= 0xFFFF,
        MessageView::SurfaceToCache { rect, .. } => rect.left < rect.right && rect.top < rect.bottom,
        MessageView::CacheToSurface { points, .. } => points.len() <= 0xFFFF,
        MessageView::CreateSurface { width, height, format, .. } => width <= 32766 && height <= 32766 && (format
            == 0x20 || format == 0x21),
        MessageView::ResetGraphics { width, height, monitors } => width <= 32766 && height <= 32766 && monitors
            <= 16 && more.len() >= 20 * monitors,
        MessageView::MapSurfaceToOutput { .. } => more.len() == 2,
        MessageView::Other { command, length } => length == 8 + more.len() && (command == 0 || command == 13
            || 15 < command < 19 || command > 19),
        _ => true,
    }
}

proof fn wire_1_reads_back(c: Cursor, surface: u16, codec: u16, format: u8, rect: Rect16, data: Seq<u8>)
    requires
        rect.left < rect.right,
        rect.top < rect.bottom,
        data.len() <= 0xFFFF_FFFF,
        c.faces(le16(surface) + (le16(codec) + (seq![format] + (rect_bytes(rect) + (le32((data.len() as u32)) + (data)))))),
    ensures
        wire_to_surface_1_spec(c) == Ok::<MessageView, Malformed>(
            MessageView::WireToSurface1 { surface, codec, format, rect, data },
        ),
{
    reveal(wire_to_surface_1_spec);
    let s5: Seq<u8> = data;
    assert(s5 + seq![] =~= s5);
    let s4: Seq<u8> = le32((data.len() as u32)) + s5;
    let s3: Seq<u8> = rect_bytes(rect) + s4;
    let s2: Seq<u8> = seq![format] + s3;
    let s1: Seq<u8> = le16(codec) + s2;
    word_next(c, surface, s1);
    let c1 = c.plus(2);
    word_next(c1, codec, s2);
    let c2 = c1.plus(2);
    byte_next(c2, format, s3);
    let c3 = c2.plus(1);
    a_rectangle_is_next(c3, rect, s4);
    let c4 = c3.plus(8);
    long_next(c4, (data.len() as u32), s5);
    let c5 = c4.plus(4);
    bytes_next(c5, data, seq![]);
}

proof fn wire_2_reads_back(c: Cursor, surface: u16, codec: u16, context: u32, format: u8, data: Seq<u8>)
    requires
        data.len() <= 0xFFFF_FFFF,
        c.faces(le16(surface) + (le16(codec) + (le32(context) + (seq![format] + (le32((data.len() as u32)) + (data)))))),
    ensures
        wire_to_surface_2_spec(c) == Ok::<MessageView, Malformed>(
            MessageView::WireToSurface2 { surface, codec, context, format, data },
        ),
{
    reveal(wire_to_surface_2_spec);
    let s5: Seq<u8> = data;
    assert(s5 + seq![] =~= s5);
    let s4: Seq<u8> = le32((data.len() as u32)) + s5;
    let s3: Seq<u8> = seq![format] + s4;
    let s2: Seq<u8> = le32(context) + s3;
    let s1: Seq<u8> = le16(codec) + s2;
    word_next(c, surface, s1);
    let c1 = c.plus(2);
    word_next(c1, codec, s2);
    let c2 = c1.plus(2);
    long_next(c2, context, s3);
    let c3 = c2.plus(4);
    byte_next(c3, format, s4);
    let c4 = c3.plus(1);
    long_next(c4, (data.len() as u32), s5);
    let c5 = c4.plus(4);
    bytes_next(c5, data, seq![]);
}

proof fn context_reads_back(c: Cursor, surface: u16, context: u32)
    requires
        c.faces(le16(surface) + (le32(context))),
    ensures
        delete_encoding_context_spec(c) == Ok::<MessageView, Malformed>(
            MessageView::DeleteEncodingContext { surface, context },
        ),
{
    reveal(delete_encoding_context_spec);
    let s1: Seq<u8> = le32(context);
    assert(s1 + seq![] =~= s1);
    word_next(c, surface, s1);
    let c1 = c.plus(2);
    long_next(c1, context, seq![]);
}

proof fn fill_reads_back(c: Cursor, surface: u16, color: Seq<u8>, rects: Seq<Rect16>)
    requires
        color.len() == 4,
        rects.len() <= 0xFFFF,
        forall|i: int|
            0 <= i < rects.len() ==> (#[trigger] rects[i]).left < rects[i].right && rects[i].top < rects[i].bottom,
        c.faces(le16(surface) + (color + (le16((rects.len() as u16)) + (rects_bytes(rects))))),
    ensures
        solid_fill_spec(c) == Ok::<MessageView, Malformed>(
            MessageView::SolidFill { surface, color, rects },
        ),
{
    reveal(solid_fill_spec);
    let s3: Seq<u8> = rects_bytes(rects);
    let s2: Seq<u8> = le16((rects.len() as u16)) + s3;
    let s1: Seq<u8> = color + s2;
    word_next(c, surface, s1);
    let c1 = c.plus(2);
    bytes_next(c1, color, s2);
    let c2 = c1.plus(color.len() as int);
    word_next(c2, (rects.len() as u16), s3);
    let c3 = c2.plus(2);
    assert(rects_bytes(rects) + seq![] =~= rects_bytes(rects));
    rectangles_read_back(c3, rects, seq![], seq![]);
    assert(seq![] + rects =~= rects);
}

proof fn copy_reads_back(c: Cursor, src: u16, dst: u16, rect: Rect16, points: Seq<Point16>)
    requires
        rect.left < rect.right,
        rect.top < rect.bottom,
        points.len() <= 0xFFFF,
        c.faces(le16(src) + (le16(dst) + (rect_bytes(rect) + (le16((points.len() as u16)) + (points_bytes(points)))))),
    ensures
        surface_to_surface_spec(c) == Ok::<MessageView, Malformed>(
            MessageView::SurfaceToSurface { src, dst, rect, points },
        ),
{
    reveal(surface_to_surface_spec);
    let s4: Seq<u8> = points_bytes(points);
    let s3: Seq<u8> = le16((points.len() as u16)) + s4;
    let s2: Seq<u8> = rect_bytes(rect) + s3;
    let s1: Seq<u8> = le16(dst) + s2;
    word_next(c, src, s1);
    let c1 = c.plus(2);
    word_next(c1, dst, s2);
    let c2 = c1.plus(2);
    a_rectangle_is_next(c2, rect, s3);
    let c3 = c2.plus(8);
    word_next(c3, (points.len() as u16), s4);
    let c4 = c3.plus(2);
    points_read_back(c4, points, seq![]);
    assert(seq![] + points =~= points);
}

proof fn keep_reads_back(c: Cursor, surface: u16, key: u64, slot: u16, rect: Rect16)
    requires
        rect.left < rect.right,
        rect.top < rect.bottom,
        c.faces(le16(surface) + (le32(((key % 0x1_0000_0000) as u32)) + (le32(((key / 0x1_0000_0000) as u32)) + (le16(slot) + (rect_bytes(rect)))))),
    ensures
        surface_to_cache_spec(c) == Ok::<MessageView, Malformed>(
            MessageView::SurfaceToCache { surface, key, slot, rect },
        ),
{
    reveal(surface_to_cache_spec);
    let s4: Seq<u8> = rect_bytes(rect);
    assert(s4 + seq![] =~= s4);
    let s3: Seq<u8> = le16(slot) + s4;
    let s2: Seq<u8> = le32(((key / 0x1_0000_0000) as u32)) + s3;
    let s1: Seq<u8> = le32(((key % 0x1_0000_0000) as u32)) + s2;
    word_next(c, surface, s1);
    let c1 = c.plus(2);
    long_next(c1, ((key % 0x1_0000_0000) as u32), s2);
    let c2 = c1.plus(4);
    long_next(c2, ((key / 0x1_0000_0000) as u32), s3);
    let c3 = c2.plus(4);
    word_next(c3, slot, s4);
    let c4 = c3.plus(2);
    a_rectangle_is_next(c4, rect, seq![]);
}

proof fn stamp_reads_back(c: Cursor, slot: u16, surface: u16, points: Seq<Point16>)
    requires
        points.len() <= 0xFFFF,
        c.faces(le16(slot) + (le16(surface) + (le16((points.len() as u16)) + (points_bytes(points))))),
    ensures
        cache_to_surface_spec(c) == Ok::<MessageView, Malformed>(
            MessageView::CacheToSurface { slot, surface, points },
        ),
{
    reveal(cache_to_surface_spec);
    let s3: Seq<u8> = points_bytes(points);
    let s2: Seq<u8> = le16((points.len() as u16)) + s3;
    let s1: Seq<u8> = le16(surface) + s2;
    word_next(c, slot, s1);
    let c1 = c.plus(2);
    word_next(c1, surface, s2);
    let c2 = c1.plus(2);
    word_next(c2, (points.len() as u16), s3);
    let c3 = c2.plus(2);
    points_read_back(c3, points, seq![]);
    assert(seq![] + points =~= points);
}

proof fn create_reads_back(c: Cursor, surface: u16, width: u16, height: u16, format: u8)
    requires
        width <= 32766,
        height <= 32766,
        format == 0x20 || format == 0x21,
        c.faces(le16(surface) + (le16(width) + (le16(height) + (seq![format])))),
    ensures
        create_surface_spec(c) == Ok::<MessageView, Malformed>(
            MessageView::CreateSurface { surface, width, height, format },
        ),
{
    reveal(create_surface_spec);
    let s3: Seq<u8> = seq![format];
    assert(s3 + seq![] =~= s3);
    let s2: Seq<u8> = le16(height) + s3;
    let s1: Seq<u8> = le16(width) + s2;
    word_next(c, surface, s1);
    let c1 = c.plus(2);
    word_next(c1, width, s2);
    let c2 = c1.plus(2);
    word_next(c2, height, s3);
    let c3 = c2.plus(2);
    byte_next(c3, format, seq![]);
}

proof fn start_reads_back(c: Cursor, timestamp: u32, frame: u32)
    requires
        c.faces(le32(timestamp) + (le32(frame))),
    ensures
        start_frame_spec(c) == Ok::<MessageView, Malformed>(
            MessageView::StartFrame { timestamp, frame },
        ),
{
    reveal(start_frame_spec);
    let s1: Seq<u8> = le32(frame);
    assert(s1 + seq![] =~= s1);
    long_next(c, timestamp, s1);
    let c1 = c.plus(4);
    long_next(c1, frame, seq![]);
}

proof fn end_reads_back(c: Cursor, frame: u32)
    requires
        c.faces(le32(frame)),
    ensures
        end_frame_spec(c) == Ok::<MessageView, Malformed>(
            MessageView::EndFrame { frame },
        ),
{
    reveal(end_frame_spec);
    let s0: Seq<u8> = le32(frame);
    assert(s0 + seq![] =~= s0);
    long_next(c, frame, seq![]);
}

proof fn evict_reads_back(c: Cursor, slot: u16)
    requires
        c.faces(le16(slot)),
    ensures
        one_u16_spec(c, 8) == Ok::<MessageView, Malformed>(
            MessageView::EvictCacheEntry { slot },
        ),
{
    reveal(one_u16_spec);
    let s0: Seq<u8> = le16(slot);
    assert(s0 + seq![] =~= s0);
    word_next(c, slot, seq![]);
}

proof fn delete_reads_back(c: Cursor, surface: u16)
    requires
        c.faces(le16(surface)),
    ensures
        one_u16_spec(c, 10) == Ok::<MessageView, Malformed>(
            MessageView::DeleteSurface { surface },
        ),
{
    reveal(one_u16_spec);
    let s0: Seq<u8> = le16(surface);
    assert(s0 + seq![] =~= s0);
    word_next(c, surface, seq![]);
}

proof fn reset_reads_back(c: Cursor, width: u32, height: u32, monitors: u32, more: Seq<u8>)
    requires
        width <= 32766,
        height <= 32766,
        monitors <= 16,
        more.len() >= 20 * monitors,
        c.faces(le32(width) + (le32(height) + (le32(monitors) + (more)))),
    ensures
        reset_graphics_spec(c) == Ok::<MessageView, Malformed>(
            MessageView::ResetGraphics { width, height, monitors },
        ),
{
    reveal(reset_graphics_spec);
    let s3: Seq<u8> = more;
    assert(s3 + seq![] =~= s3);
    let s2: Seq<u8> = le32(monitors) + s3;
    let s1: Seq<u8> = le32(height) + s2;
    long_next(c, width, s1);
    let c1 = c.plus(4);
    long_next(c1, height, s2);
    let c2 = c1.plus(4);
    long_next(c2, monitors, s3);
    let c3 = c2.plus(4);
    bytes_next(c3, more, seq![]);
}

proof fn map_reads_back(c: Cursor, surface: u16, x: u32, y: u32, more: Seq<u8>)
    requires
        more.len() == 2,
        c.faces(le16(surface) + (more + (le32(x) + (le32(y))))),
    ensures
        map_surface_spec(c) == Ok::<MessageView, Malformed>(
            MessageView::MapSurfaceToOutput { surface, x, y },
        ),
{
    reveal(map_surface_spec);
    let s3: Seq<u8> = le32(y);
    assert(s3 + seq![] =~= s3);
    let s2: Seq<u8> = le32(x) + s3;
    let s1: Seq<u8> = more + s2;
    word_next(c, surface, s1);
    let c1 = c.plus(2);
    bytes_next(c1, more, s2);
    let c2 = c1.plus(more.len() as int);
    long_next(c2, x, s3);
    let c3 = c2.plus(4);
    long_next(c3, y, seq![]);
}

proof fn confirm_reads_back(c: Cursor, version: u32, flags: u32)
    requires
        c.faces(le32(version) + (le32(4) + (le32(flags)))),
    ensures
        caps_confirm_spec(c) == Ok::<MessageView, Malformed>(
            MessageView::CapsConfirm { version, flags },
        ),
{
    reveal(caps_confirm_spec);
    let s2: Seq<u8> = le32(flags);
    assert(s2 + seq![] =~= s2);
    let s1: Seq<u8> = le32(4) + s2;
    long_next(c, version, s1);
    let c1 = c.plus(4);
    long_next(c1, 4, s2);
    let c2 = c1.plus(4);
    long_next(c2, flags, seq![]);
}

/// A PDU reads back as it was sent, under its command and behind its length, and the next one
/// starts where it ends.
pub proof fn a_pdu_reads_back(c: Cursor, m: MessageView, flags: u16, more: Seq<u8>, rest: Seq<u8>)
    requires
        sendable(m, more),
        8 + sent_bytes(m, more).len() <= 0xFFFF_FFFF,
        c.faces(
            le16(command_of(m)) + (le16(flags) + (le32((8 + sent_bytes(m, more).len()) as u32) + (sent_bytes(m, more)
                + rest))),
        ),
    ensures
        match pdu_step(c) {
            Step::Stop(_) => false,
            Step::Got(got, next) => got == m && next.faces(rest),
        },
{
    let body = sent_bytes(m, more);
    let length = (8 + body.len()) as u32;
    a_body_reads_back(m, more);
    word_next(c, command_of(m), le16(flags) + (le32(length) + (body + rest)));
    word_next(c.plus(2), flags, le32(length) + (body + rest));
    long_next(c.plus(2).plus(2), length, body + rest);
    bytes_next(c.plus(2).plus(2).plus(4), body, rest);
}

proof fn a_body_reads_back(m: MessageView, more: Seq<u8>)
    requires
        sendable(m, more),
        8 + sent_bytes(m, more).len() <= 0xFFFF_FFFF,
    ensures
        body_spec(command_of(m), (8 + sent_bytes(m, more).len()) as u32, sent_bytes(m, more)) == Ok::<
            MessageView,
            Malformed,
        >(m),
{
    reveal(body_spec);
    let body = sent_bytes(m, more);
    let c = cursor(WHAT, body);
    front_faces(WHAT, body);
    match m {
        MessageView::WireToSurface1 { surface, codec, format, rect, data } => {
            wire_1_reads_back(c, surface, codec, format, rect, data);
        },
        MessageView::WireToSurface2 { surface, codec, context, format, data } => {
            wire_2_reads_back(c, surface, codec, context, format, data);
        },
        MessageView::DeleteEncodingContext { surface, context } => {
            context_reads_back(c, surface, context);
        },
        MessageView::SolidFill { surface, color, rects } => {
            fill_reads_back(c, surface, color, rects);
        },
        MessageView::SurfaceToSurface { src, dst, rect, points } => {
            copy_reads_back(c, src, dst, rect, points);
        },
        MessageView::SurfaceToCache { surface, key, slot, rect } => {
            keep_reads_back(c, surface, key, slot, rect);
        },
        MessageView::CacheToSurface { slot, surface, points } => {
            stamp_reads_back(c, slot, surface, points);
        },
        MessageView::EvictCacheEntry { slot } => {
            evict_reads_back(c, slot);
        },
        MessageView::CreateSurface { surface, width, height, format } => {
            create_reads_back(c, surface, width, height, format);
        },
        MessageView::DeleteSurface { surface } => {
            delete_reads_back(c, surface);
        },
        MessageView::StartFrame { timestamp, frame } => {
            start_reads_back(c, timestamp, frame);
        },
        MessageView::EndFrame { frame } => {
            end_reads_back(c, frame);
        },
        MessageView::ResetGraphics { width, height, monitors } => {
            reset_reads_back(c, width, height, monitors, more);
        },
        MessageView::MapSurfaceToOutput { surface, x, y } => {
            map_reads_back(c, surface, x, y, more);
        },
        MessageView::CapsConfirm { version, flags } => {
            confirm_reads_back(c, version, flags);
        },
        MessageView::Other { .. } => {},
    }
}

} // verus!
