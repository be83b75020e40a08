//! The graphics pipeline's picture: surfaces, and how they reach the framebuffer.
//!
//! Under MS-RDPEGFX the server does not paint the desktop. It paints *surfaces*,
//! off-screen pictures it creates and sizes, and maps them onto the output at an
//! origin; the desktop is what the mapped surfaces show. Drawing arrives between a
//! StartFrame and an EndFrame, and only at the EndFrame is the output meant to
//! change, so this module keeps each surface's own pixels and the rectangles of it
//! that have changed since the last frame, and at the EndFrame copies those
//! rectangles of every mapped surface into the [`Framebuffer`].
//!
//! # What is decoded here
//!
//! Uncompressed rectangles, the planar codec, ClearCodec and RemoteFX Progressive. Every
//! other codec a server names is counted and left unpainted: a codec this client cannot
//! read is a hole in the picture rather than the end of the session.
//!
//! [`Graphics::receive`] is the whole of it: one channel PDU in, and out come the
//! things the session has to act on that the framebuffer cannot show: the output
//! being redefined, the rectangles painted, and each frame's end.

use vstd::prelude::*;
use vstd::slice::slice_subrange;

use crate::framebuffer::{
    a_blit_lands_where_its_rectangle_says, affordable, all_bounded, blank, blit_from_spec,
    clipping_keeps_the_shared_pixels, copied, damaged, stage, staged, staging_loses_nothing_and_keeps_to_its_cap,
    FrameView, Framebuffer, Rect, TooLarge,
};
use crate::pixels::{overwrite, pixel_at, pixels_are_apart, place, row_is_inside, splice, zeroed};
use crate::proto::bitmap::{swizzled, MAX_DESKTOP_BYTES};
use crate::proto::clear::{self, Canvas, CanvasView, Clear, ClearView};
use crate::proto::gfx::{self, Message, MessageView, Point16, Rect16};
use crate::proto::planar;
use crate::proto::progressive::{self, GridView, Paint, PaintView, Progressive};
use crate::proto::wire::{cursor, Cursor, Malformed, Step};
use crate::table::{
    nothing_weighs_nothing, fold, fold_before, fold_below, insert_weighs, leaving_out_weighs, remove_weighs, same_weights, walk_folds, walk_weighs,
    weight, weight_before, Table,
};
use crate::text;

verus! {

/// Most rectangles a surface holds as changed before two of them are merged to
/// make room: coarser, never longer. See [`stage`] for which two.
pub const DAMAGE_CAP: usize = 64;

/// Most bytes the cache slots hold together. The caps this client advertises promise
/// the host a 16 MiB cache (`SMALL_CACHE`), so a host that keeps its word never comes
/// near this; one that does not is refused the entry rather than the process's memory.
pub const CACHE_BUDGET: usize = 0x400_0000;

/// Something the pipeline did that the session has to act on, in the order it
/// happened.
#[derive(Clone, Copy, Debug, PartialEq, Eq)]
pub enum Update {
    /// The host confirmed the pipeline: everything it draws from here on comes
    /// inside a frame. Reported before the first paint, which is what a consumer
    /// that paces frames itself needs to know before it receives one.
    Confirmed,
    /// The output is now this size. The framebuffer has already been resized and
    /// cleared; the caller is what tells the world.
    Reset { width: u32, height: u32 },
    /// This rectangle of the framebuffer was painted.
    Paint(Rect),
    /// The server finished frame `id`, and this client has finished `decoded` in all.
    Frame { id: u32, decoded: u32 },
}

/// One surface: its pixels in `RGBX32`, where it shows on the output, and what has
/// changed in it since the last frame.
pub struct Surface {
    width: u32,
    height: u32,
    pixels: Vec<u8>,
    /// Where its top left sits on the output, once it has been mapped.
    mapped: Option<(u32, u32)>,
    /// Rectangles of the surface drawn into since the last EndFrame.
    invalid: Vec<Rect>,
}

/// A [`Surface`] by its contents.
pub struct SurfaceView {
    pub width: u32,
    pub height: u32,
    pub pixels: Seq<u8>,
    pub mapped: Option<(u32, u32)>,
    pub invalid: Seq<Rect>,
}

impl View for Surface {
    type V = SurfaceView;

    closed spec fn view(&self) -> SurfaceView {
        SurfaceView {
            width: self.width,
            height: self.height,
            pixels: self.pixels@,
            mapped: self.mapped,
            invalid: self.invalid@,
        }
    }
}

/// The first `n` rows of a rectangle written from packed `BGRX32` rows, top row first,
/// into the surface's own order.
pub open spec fn written(width: u32, pixels: Seq<u8>, rect: Rect, bgrx: Seq<u8>, n: nat) -> Seq<u8>
    decreases n,
{
    if n == 0 {
        pixels
    } else {
        splice(
            written(width, pixels, rect, bgrx, (n - 1) as nat),
            place(width as int, rect.x as int, rect.y + n - 1),
            swizzled(bgrx, 4 * ((n - 1) * rect.width), rect.width as nat),
        )
    }
}

/// One row of one colour.
pub open spec fn flat_row(rgb: Seq<u8>, n: nat) -> Seq<u8> {
    Seq::new(4 * n, |j: int| if j % 4 == 3 { 0u8 } else { rgb[j % 4] })
}

/// The first `n` rows of a rectangle filled with one colour.
pub open spec fn filled(width: u32, pixels: Seq<u8>, rect: Rect, rgb: Seq<u8>, n: nat) -> Seq<u8>
    decreases n,
{
    if n == 0 {
        pixels
    } else {
        splice(
            filled(width, pixels, rect, rgb, (n - 1) as nat),
            place(width as int, rect.x as int, rect.y + n - 1),
            flat_row(rgb, rect.width as nat),
        )
    }
}

/// The first `n` rows of a rectangle, packed.
pub open spec fn lifted(width: u32, pixels: Seq<u8>, rect: Rect, n: nat) -> Seq<u8>
    decreases n,
{
    if n == 0 {
        seq![]
    } else {
        let at = place(width as int, rect.x as int, rect.y + n - 1);
        lifted(width, pixels, rect, (n - 1) as nat) + pixels.subrange(at, at + 4 * rect.width)
    }
}

/// The first `n` rows of a rectangle written from packed rows in the surface's own order.
pub open spec fn stamped(width: u32, pixels: Seq<u8>, rect: Rect, packed: Seq<u8>, n: nat) -> Seq<u8>
    decreases n,
{
    if n == 0 {
        pixels
    } else {
        let from = 4 * ((n - 1) * rect.width);
        splice(
            stamped(width, pixels, rect, packed, (n - 1) as nat),
            place(width as int, rect.x as int, rect.y + n - 1),
            packed.subrange(from, from + 4 * rect.width),
        )
    }
}

/// A `Rect16`, with its exclusive edges, as the framebuffer's [`Rect`].
pub open spec fn rect_of(rect: Rect16) -> Rect {
    Rect {
        x: rect.left as u32,
        y: rect.top as u32,
        width: (rect.right - rect.left) as u32,
        height: (rect.bottom - rect.top) as u32,
    }
}

fn to_rect(rect: Rect16) -> (r: Rect)
    requires
        rect.ordered(),
    ensures
        r == rect_of(rect),
        r.bounded(),
{
    Rect {
        x: rect.left as u32,
        y: rect.top as u32,
        width: rect.width() as u32,
        height: rect.height() as u32,
    }
}

impl SurfaceView {
    pub open spec fn wf(self) -> bool {
        &&& self.width <= gfx::MAX_DIMENSION
        &&& self.height <= gfx::MAX_DIMENSION
        &&& self.pixels.len() == 4 * (self.width * self.height)
        &&& self.pixels.len() <= usize::MAX
        &&& all_bounded(self.invalid)
    }

    pub open spec fn bounds(self) -> Rect {
        Rect { x: 0, y: 0, width: self.width, height: self.height }
    }

    /// Whether a rectangle lies inside the surface.
    pub open spec fn contains(self, rect: Rect) -> bool {
        rect.right() <= self.width && rect.bottom() <= self.height
    }

    /// The surface drawn into, with the rectangle that was.
    pub open spec fn drawn(self, pixels: Seq<u8>, rect: Rect) -> SurfaceView {
        SurfaceView { pixels, invalid: staged(self.invalid, rect, DAMAGE_CAP as nat), ..self }
    }

    pub open spec fn write_spec(self, rect: Rect, bgrx: Seq<u8>) -> SurfaceView {
        self.drawn(written(self.width, self.pixels, rect, bgrx, rect.height as nat), rect)
    }

    pub open spec fn fill_spec(self, rect: Rect, rgb: Seq<u8>) -> SurfaceView {
        self.drawn(filled(self.width, self.pixels, rect, rgb, rect.height as nat), rect)
    }

    pub open spec fn copy_in_spec(self, rect: Rect, packed: Seq<u8>) -> SurfaceView {
        self.drawn(stamped(self.width, self.pixels, rect, packed, rect.height as nat), rect)
    }

    pub open spec fn copy_out_spec(self, rect: Rect) -> Seq<u8> {
        lifted(self.width, self.pixels, rect, rect.height as nat)
    }

    /// A surface as it is made: black, not mapped, and with nothing drawn into it.
    pub open spec fn new_spec(width: u32, height: u32) -> SurfaceView {
        SurfaceView {
            width,
            height,
            pixels: Seq::new((4 * (width * height)) as nat, |i: int| 0u8),
            mapped: None,
            invalid: seq![],
        }
    }
}

impl Surface {
    fn new(width: u32, height: u32) -> (s: Surface)
        requires
            width <= gfx::MAX_DIMENSION,
            height <= gfx::MAX_DIMENSION,
            4 * (width * height) <= usize::MAX,
        ensures
            s@ == SurfaceView::new_spec(width, height),
            s@.wf(),
    {
        proof {
            assert(0 <= width * height <= 4 * (width * height)) by (nonlinear_arith)
                requires
                    0 <= width,
                    0 <= height,
            ;
        }
        let s = Surface {
            width,
            height,
            pixels: zeroed(4 * (width as usize * height as usize)),
            mapped: None,
            invalid: Vec::new(),
        };
        assert(s@.invalid =~= seq![]);
        s
    }

    /// Record a rectangle drawn into: see [`stage`] for how the list is kept to
    /// [`DAMAGE_CAP`].
    fn invalidate(&mut self, rect: Rect)
        requires
            old(self)@.wf(),
            rect.bounded(),
        ensures
            final(self)@.wf(),
            final(self)@ == old(self)@.drawn(old(self)@.pixels, rect),
    {
        stage(&mut self.invalid, rect, DAMAGE_CAP);
    }

    /// Write one rectangle of packed `BGRX32` rows, top row first, swizzling into
    /// the framebuffer's order on the way.
    fn write(&mut self, rect: Rect, bgrx: &[u8])
        requires
            old(self)@.wf(),
            old(self)@.contains(rect),
            bgrx@.len() == 4 * (rect.width * rect.height),
        ensures
            final(self)@.wf(),
            final(self)@ == old(self)@.write_spec(rect, bgrx@),
    {
        let ghost start = self@;
        let (held, len): (usize, usize) = (self.pixels.len(), bgrx.len());
        for row in 0..rect.height
            invariant
                self@.wf(),
                start == old(self)@,
                self@ == (SurfaceView {
                    pixels: written(start.width, start.pixels, rect, bgrx@, row as nat),
                    ..start
                }),
                start.contains(rect),
                held == self.pixels@.len(),
                len == bgrx@.len(),
                len == 4 * (rect.width * rect.height),
        {
            proof {
                row_is_inside(
                    self.width as int,
                    self.height as int,
                    rect.x as int,
                    rect.y + row,
                    rect.width as int,
                );
                assert(0 <= row * rect.width && row * rect.width + rect.width <= rect.width * rect.height)
                    by (nonlinear_arith)
                    requires
                        0 <= row < rect.height,
                        0 <= rect.width,
                ;
            }
            let from: usize = 4 * (row as usize * rect.width as usize);
            let line = swizzle(bgrx, from, rect.width as usize);
            let at: usize = 4 * ((rect.y + row) as usize * self.width as usize + rect.x as usize);
            overwrite(self.pixels.as_mut_slice(), at, line.as_slice());
        }
        self.invalidate(rect);
    }

    /// Fill a rectangle with one colour, red first.
    fn fill(&mut self, rect: Rect, rgb: [u8; 3])
        requires
            old(self)@.wf(),
            old(self)@.contains(rect),
        ensures
            final(self)@.wf(),
            final(self)@ == old(self)@.fill_spec(rect, rgb@),
    {
        let ghost start = self@;
        let held: usize = self.pixels.len();
        let mut line: Vec<u8> = Vec::new();
        for i in 0..rect.width
            invariant
                line@.len() == 4 * i,
                forall|j: int| 0 <= j < line@.len() ==> line@[j] == flat_row(rgb@, rect.width as nat)[j],
        {
            line.push(rgb[0]);
            line.push(rgb[1]);
            line.push(rgb[2]);
            line.push(0);
        }
        assert(line@ =~= flat_row(rgb@, rect.width as nat));
        for row in 0..rect.height
            invariant
                self@.wf(),
                start == old(self)@,
                self@ == (SurfaceView {
                    pixels: filled(start.width, start.pixels, rect, rgb@, row as nat),
                    ..start
                }),
                start.contains(rect),
                held == self.pixels@.len(),
                line@ == flat_row(rgb@, rect.width as nat),
        {
            proof {
                row_is_inside(
                    self.width as int,
                    self.height as int,
                    rect.x as int,
                    rect.y + row,
                    rect.width as int,
                );
            }
            let at: usize = 4 * ((rect.y + row) as usize * self.width as usize + rect.x as usize);
            overwrite(self.pixels.as_mut_slice(), at, line.as_slice());
        }
        self.invalidate(rect);
    }

    /// Copy a rectangle of this surface out, its rows packed tight, top row first.
    fn copy_out(&self, rect: Rect) -> (out: Vec<u8>)
        requires
            self@.wf(),
            self@.contains(rect),
        ensures
            out@ == self@.copy_out_spec(rect),
            out@.len() == 4 * (rect.width * rect.height),
    {
        let held: usize = self.pixels.len();
        let mut out: Vec<u8> = Vec::new();
        assert(0 * rect.width == 0) by (nonlinear_arith);
        for row in 0..rect.height
            invariant
                self@.wf(),
                self@.contains(rect),
                held == self.pixels@.len(),
                out@ == lifted(self.width, self.pixels@, rect, row as nat),
                out@.len() == 4 * (row * rect.width),
        {
            proof {
                row_is_inside(
                    self.width as int,
                    self.height as int,
                    rect.x as int,
                    rect.y + row,
                    rect.width as int,
                );
                assert((row + 1) * rect.width == row * rect.width + rect.width) by (nonlinear_arith);
            }
            let at: usize = 4 * ((rect.y + row) as usize * self.width as usize + rect.x as usize);
            let line = slice_subrange(self.pixels.as_slice(), at, at + 4 * rect.width as usize);
            let ghost before = out@;
            out.extend_from_slice(line);
            assert(out@ =~= before + line@);
        }
        assert(rect.height * rect.width == rect.width * rect.height) by (nonlinear_arith);
        out
    }

    /// Write packed rows, as [`Surface::copy_out`] produced them, into a rectangle that
    /// fits, and record it as changed.
    fn copy_in(&mut self, rect: Rect, packed: &Vec<u8>)
        requires
            old(self)@.wf(),
            old(self)@.contains(rect),
            packed@.len() == 4 * (rect.width * rect.height),
        ensures
            final(self)@.wf(),
            final(self)@ == old(self)@.copy_in_spec(rect, packed@),
    {
        let ghost start = self@;
        let (held, len): (usize, usize) = (self.pixels.len(), packed.len());
        for row in 0..rect.height
            invariant
                self@.wf(),
                start == old(self)@,
                self@ == (SurfaceView {
                    pixels: stamped(start.width, start.pixels, rect, packed@, row as nat),
                    ..start
                }),
                start.contains(rect),
                held == self.pixels@.len(),
                len == packed@.len(),
                len == 4 * (rect.width * rect.height),
        {
            proof {
                row_is_inside(
                    self.width as int,
                    self.height as int,
                    rect.x as int,
                    rect.y + row,
                    rect.width as int,
                );
                assert(0 <= row * rect.width && row * rect.width + rect.width <= rect.width * rect.height)
                    by (nonlinear_arith)
                    requires
                        0 <= row < rect.height,
                        0 <= rect.width,
                ;
            }
            let from: usize = 4 * (row as usize * rect.width as usize);
            let line = slice_subrange(packed.as_slice(), from, from + 4 * rect.width as usize);
            let at: usize = 4 * ((rect.y + row) as usize * self.width as usize + rect.x as usize);
            overwrite(self.pixels.as_mut_slice(), at, line);
        }
        self.invalidate(rect);
    }
}

/// One row, red first.
fn swizzle(bgrx: &[u8], from: usize, n: usize) -> (line: Vec<u8>)
    requires
        from + 4 * n <= bgrx@.len(),
    ensures
        line@ == swizzled(bgrx@, from as int, n as nat),
{
    let len: usize = bgrx.len();
    let mut line: Vec<u8> = Vec::with_capacity(4 * n);
    for i in 0..n
        invariant
            len == bgrx@.len(),
            from + 4 * n <= len,
            line@.len() == 4 * i,
            forall|j: int| 0 <= j < line@.len() ==> line@[j] == swizzled(bgrx@, from as int, n as nat)[j],
    {
        line.push(bgrx[from + 4 * i + 2]);
        line.push(bgrx[from + 4 * i + 1]);
        line.push(bgrx[from + 4 * i]);
        line.push(0);
    }
    assert(line@ =~= swizzled(bgrx@, from as int, n as nat));
    line
}

/// A rectangle lifted off a surface and kept under a slot, to be stamped back down
/// on the output later: the scroll-and-repeat the desktop leans on most. Its pixels
/// are a surface's own packed `RGBX32`.
pub struct Cache {
    width: u32,
    height: u32,
    pixels: Vec<u8>,
}

/// A [`Cache`] by its contents.
pub struct CacheView {
    pub width: u32,
    pub height: u32,
    pub pixels: Seq<u8>,
}

impl View for Cache {
    type V = CacheView;

    closed spec fn view(&self) -> CacheView {
        CacheView { width: self.width, height: self.height, pixels: self.pixels@ }
    }
}

impl CacheView {
    pub open spec fn wf(self) -> bool {
        &&& self.width <= gfx::MAX_DIMENSION
        &&& self.height <= gfx::MAX_DIMENSION
        &&& self.pixels.len() == 4 * (self.width * self.height)
    }
}

/// No side a server may name makes a picture of more than this.
proof fn picture_is_bounded(width: int, height: int)
    requires
        0 <= width <= gfx::MAX_DIMENSION,
        0 <= height <= gfx::MAX_DIMENSION,
    ensures
        0 <= width * height <= 0x3FFF_0004,
        0 <= 4 * (width * height) <= 0xFFFF_FFFF,
{
    assert(0 <= width * height <= 32_766 * 32_766) by (nonlinear_arith)
        requires
            0 <= width <= 32_766,
            0 <= height <= 32_766,
    ;
}

/// What the channel has carried, by command and by codec.
///
/// Kept for the life of the channel and said once at the end: a session that painted
/// nothing says here which codec it was waiting on.
pub struct Tally {
    pub commands: Table<u64>,
    pub codecs: Table<u64>,
}

/// A [`Tally`] by its contents.
pub struct TallyView {
    pub commands: Map<u16, u64>,
    pub codecs: Map<u16, u64>,
}

impl View for Tally {
    type V = TallyView;

    open spec fn view(&self) -> TallyView {
        TallyView { commands: self.commands@, codecs: self.codecs@ }
    }
}

/// One more of a number.
pub open spec fn counted(counts: Map<u16, u64>, number: u16) -> Map<u16, u64> {
    counts.insert(
        number,
        if !counts.contains_key(number) {
            1
        } else if counts[number] == u64::MAX {
            u64::MAX
        } else {
            (counts[number] + 1) as u64
        },
    )
}

fn count(counts: &mut Table<u64>, number: u16)
    ensures
        final(counts)@ == counted(old(counts)@, number),
{
    let more: u64 = match counts.get(number) {
        Some(n) => if *n == u64::MAX { u64::MAX } else { *n + 1 },
        None => 1,
    };
    counts.insert(number, more);
}

/// One entry of a list of counts.
pub open spec fn entry(text: Seq<char>, name: Seq<char>, n: u64) -> Seq<char> {
    (if text.len() == 0 { text } else { text + ", "@ }) + name + " "@ + text::decimal(n as nat)
}

fn push_entry(s: &mut String, name: &'static str, n: u64)
    ensures
        final(s)@ == entry(old(s)@, name@, n),
{
    if s.unicode_len() != 0 {
        s.append(", ");
    }
    s.append(name);
    s.append(" ");
    text::push_decimal(s, n);
    assert(s@ =~= entry(old(s)@, name@, n));
}

pub open spec fn command_entry() -> spec_fn(Seq<char>, u16, u64) -> Seq<char> {
    |text: Seq<char>, number: u16, n: u64| entry(text, gfx::command_name_spec(number)@, n)
}

pub open spec fn codec_entry() -> spec_fn(Seq<char>, u16, u64) -> Seq<char> {
    |text: Seq<char>, number: u16, n: u64| entry(text, gfx::codec_name_spec(number)@, n)
}

impl TallyView {
    pub open spec fn summary_spec(self) -> Seq<char> {
        "commands ["@ + fold(self.commands, command_entry(), seq![]) + "], codecs ["@ + fold(
            self.codecs,
            codec_entry(),
            seq![],
        ) + "]"@
    }
}

impl Tally {
    fn new() -> (t: Tally)
        ensures
            t@ == (TallyView { commands: Map::empty(), codecs: Map::empty() }),
    {
        Tally { commands: Table::new(), codecs: Table::new() }
    }

    fn command(&mut self, command: u16)
        ensures
            final(self)@ == (TallyView { commands: counted(old(self)@.commands, command), ..old(self)@ }),
    {
        count(&mut self.commands, command);
    }

    fn codec(&mut self, codec: u16)
        ensures
            final(self)@ == (TallyView { codecs: counted(old(self)@.codecs, codec), ..old(self)@ }),
    {
        count(&mut self.codecs, codec);
    }

    /// The measurement, as one line.
    pub fn summary(&self) -> (s: String)
        ensures
            s@ == self@.summary_spec(),
    {
        let mut commands = String::new();
        let list = self.commands.list();
        proof { walk_folds(&self.commands, command_entry(), seq![]); }
        assert(commands@ =~= seq![]);
        for i in 0..list.len()
            invariant
                list@ == self.commands.numbers(),
                self.commands.listed(),
                commands@ == fold_before(&self.commands, command_entry(), seq![], i as int),
        {
            proof { walk_folds(&self.commands, command_entry(), seq![]); }
            push_entry(
                &mut commands,
                gfx::command_name(list[i]),
                *self.commands.value(list[i]),
            );
            assert(commands@ == fold_before(&self.commands, command_entry(), seq![], i + 1));
        }
        let mut codecs = String::new();
        let list = self.codecs.list();
        proof { walk_folds(&self.codecs, codec_entry(), seq![]); }
        assert(codecs@ =~= seq![]);
        for i in 0..list.len()
            invariant
                list@ == self.codecs.numbers(),
                self.codecs.listed(),
                codecs@ == fold_before(&self.codecs, codec_entry(), seq![], i as int),
        {
            proof { walk_folds(&self.codecs, codec_entry(), seq![]); }
            push_entry(
                &mut codecs,
                gfx::codec_name(list[i]),
                *self.codecs.value(list[i]),
            );
            assert(codecs@ == fold_before(&self.codecs, codec_entry(), seq![], i + 1));
        }
        let mut s = String::new();
        s.append("commands [");
        s.append(commands.as_str());
        s.append("], codecs [");
        s.append(codecs.as_str());
        s.append("]");
        assert(s@ =~= self@.summary_spec());
        s
    }
}

/// Why the channel, and the session with it, cannot go on.
#[derive(Clone, Copy, Debug, PartialEq, Eq)]
pub enum GraphicsError {
    /// A PDU did not decode.
    Malformed(Malformed),
    /// The output is larger than this client will hold.
    Output(TooLarge),
    /// A surface is larger than what is left of the budget beside the `held` MiB the
    /// surfaces already take.
    Surface { width: u16, height: u16, held: u64 },
}

impl GraphicsError {
    pub open spec fn text(self) -> Seq<char> {
        match self {
            GraphicsError::Malformed(e) => e.text(),
            GraphicsError::Output(e) => e.text(),
            GraphicsError::Surface { width, height, held } => "the host created a "@ + text::decimal(
                width as nat,
            ) + "x"@ + text::decimal(height as nat) + " graphics surface, which with the "@
                + text::decimal(held as nat)
                + " MiB of surfaces it already has is more than the "@ + text::decimal(512)
                + " MiB this client will hold"@,
        }
    }

    pub fn to_string(&self) -> (s: String)
        ensures
            s@ == self.text(),
    {
        match *self {
            GraphicsError::Malformed(e) => e.to_string(),
            GraphicsError::Output(e) => e.to_string(),
            GraphicsError::Surface { width, height, held } => {
                let mut s = String::new();
                s.append("the host created a ");
                text::push_decimal(&mut s, width as u64);
                s.append("x");
                text::push_decimal(&mut s, height as u64);
                s.append(" graphics surface, which with the ");
                text::push_decimal(&mut s, held);
                s.append(" MiB of surfaces it already has is more than the ");
                text::push_decimal(&mut s, 512);
                s.append(" MiB this client will hold");
                assert(s@ =~= self.text());
                s
            },
        }
    }
}

/// The pipeline's state for one channel: the surfaces, and what has been seen.
pub struct Graphics {
    pub surfaces: Table<Surface>,
    /// Rectangles lifted off surfaces, by slot, for the copies below.
    pub caches: Table<Cache>,
    /// The output's size, from the last ResetGraphics. Nothing is mapped before one.
    output: Option<(u32, u32)>,
    /// The frame the server has started and not ended.
    frame: Option<u32>,
    /// How many frames have been ended, which every acknowledgement reports.
    decoded: u32,
    pub tally: Tally,
    /// The planar codec's working space.
    planes: Vec<u8>,
    pixels: Vec<u8>,
    /// ClearCodec's state and caches, made on the first ClearCodec rectangle since a
    /// channel may never draw one.
    clear: Option<Clear>,
    /// Progressive's per-surface tiles, made on the first Progressive PDU.
    progressive: Option<Progressive>,
}

/// A [`Graphics`] by its contents.
pub struct GraphicsView {
    pub surfaces: Map<u16, SurfaceView>,
    pub caches: Map<u16, CacheView>,
    pub output: Option<(u32, u32)>,
    pub frame: Option<u32>,
    pub decoded: u32,
    pub tally: TallyView,
    pub clear: Option<ClearView>,
    pub progressive: Option<Map<u16, GridView>>,
}

pub open spec fn clear_view(c: Option<Clear>) -> Option<ClearView> {
    match c {
        Some(c) => Some(c@),
        None => None,
    }
}

pub open spec fn progressive_view(p: Option<Progressive>) -> Option<Map<u16, GridView>> {
    match p {
        Some(p) => Some(p@),
        None => None,
    }
}

impl View for Graphics {
    type V = GraphicsView;

    closed spec fn view(&self) -> GraphicsView {
        GraphicsView {
            surfaces: self.surfaces@,
            caches: self.caches@,
            output: self.output,
            frame: self.frame,
            decoded: self.decoded,
            tally: self.tally@,
            clear: clear_view(self.clear),
            progressive: progressive_view(self.progressive),
        }
    }
}

impl GraphicsView {
    pub open spec fn wf(self) -> bool {
        &&& forall|k: u16| #[trigger] self.surfaces.contains_key(k) ==> self.surfaces[k].wf()
        &&& forall|k: u16| #[trigger] self.caches.contains_key(k) ==> self.caches[k].wf()
        &&& match self.clear {
            Some(c) => c.wf(),
            None => true,
        }
        &&& self.within_budget()
    }

    /// The surfaces and the tiles behind them share one budget, and the cache slots
    /// another.
    pub open spec fn within_budget(self) -> bool {
        &&& weight(self.surfaces, surface_bytes()) + tiles_held(self.progressive) <= MAX_DESKTOP_BYTES
        &&& weight(self.caches, cache_bytes()) <= CACHE_BUDGET
    }

    pub open spec fn with_surface(self, surface: u16, s: SurfaceView) -> GraphicsView {
        GraphicsView { surfaces: self.surfaces.insert(surface, s), ..self }
    }

    pub open spec fn commanded(self, command: u16) -> GraphicsView {
        GraphicsView {
            tally: TallyView { commands: counted(self.tally.commands, command), ..self.tally },
            ..self
        }
    }

    pub open spec fn coded(self, codec: u16) -> GraphicsView {
        GraphicsView {
            tally: TallyView { codecs: counted(self.tally.codecs, codec), ..self.tally },
            ..self
        }
    }

    /// Forget the tiles of a surface.
    pub open spec fn forgetting(self, surface: u16) -> GraphicsView {
        GraphicsView {
            progressive: match self.progressive {
                Some(p) => Some(p.remove(surface)),
                None => None,
            },
            ..self
        }
    }
}

/// What a surface's pixels take, for every surface.
pub open spec fn surface_bytes() -> spec_fn(u16, SurfaceView) -> nat {
    |number: u16, s: SurfaceView| s.pixels.len()
}

/// What a surface's pixels take, for every surface but one.
pub open spec fn surface_bytes_unless(surface: u16) -> spec_fn(u16, SurfaceView) -> nat {
    |number: u16, s: SurfaceView| if number == surface { 0 } else { s.pixels.len() }
}

/// What the tiles behind the surfaces take together.
pub open spec fn tiles_held(progressive: Option<Map<u16, GridView>>) -> nat {
    match progressive {
        Some(p) => weight(p, progressive::tile_bytes()),
        None => 0,
    }
}

/// What a slot's pixels take, for every slot.
pub open spec fn cache_bytes() -> spec_fn(u16, CacheView) -> nat {
    |number: u16, c: CacheView| c.pixels.len()
}

/// What a slot's pixels take, for every slot but one.
pub open spec fn cache_bytes_unless(slot: u16) -> spec_fn(u16, CacheView) -> nat {
    |number: u16, c: CacheView| if number == slot { 0 } else { c.pixels.len() }
}

pub open spec fn capped(n: nat) -> nat {
    if n < u64::MAX { n } else { u64::MAX as nat }
}

/// What the surfaces but one, and the tiles behind them, take together.
pub open spec fn held_without(g: GraphicsView, surface: u16) -> nat {
    weight(g.surfaces, surface_bytes_unless(surface)) + match g.progressive {
        Some(p) => capped(weight(p, progressive::bytes_unless(surface))),
        None => 0,
    }
}

/// Whether a draw is in a pixel format this client draws.
pub open spec fn drawable(format: u8) -> bool {
    format == gfx::PIXEL_XRGB_8888 || format == gfx::PIXEL_ARGB_8888
}

/// A ClearCodec rectangle drawn straight onto a surface, faulty or not: the rectangle
/// and the columns that may lie beside it are what changed.
pub open spec fn clear_spec(g: GraphicsView, surface: u16, rect: Rect, data: Seq<u8>) -> GraphicsView {
    let s = g.surfaces[surface];
    let start = clear::Work {
        clear: match g.clear {
            Some(c) => c,
            None => Clear::spec_new(),
        },
        canvas: CanvasView {
            pixels: s.pixels,
            width: s.width as int,
            height: s.height as int,
            columns: None,
        },
    };
    let area = clear::Area {
        x: rect.x as usize,
        y: rect.y as usize,
        w: rect.width as usize,
        h: rect.height as usize,
    };
    let end = clear::decompress_spec(data, start, area).0;
    let drawn = s.drawn(end.canvas.pixels, rect);
    let told = match end.canvas.columns {
        Some(b) => drawn.drawn(
            drawn.pixels,
            Rect {
                x: b.left as u32,
                y: b.top as u32,
                width: (b.right - b.left) as u32,
                height: (b.bottom - b.top) as u32,
            },
        ),
        None => drawn,
    };
    GraphicsView { clear: Some(end.clear), ..g.with_surface(surface, told) }
}

/// One rectangle of pixels for a surface, in whichever codec the server chose. One that
/// does not fit, or does not decode, costs the rectangle and nothing else.
pub open spec fn draw_spec(
    g: GraphicsView,
    surface: u16,
    codec: u16,
    format: u8,
    rect: Rect,
    data: Seq<u8>,
) -> GraphicsView {
    let need = 4 * (rect.width * rect.height);
    if !g.surfaces.contains_key(surface) || !g.surfaces[surface].contains(rect) || !drawable(format) {
        g
    } else if codec == gfx::CODEC_UNCOMPRESSED {
        if data.len() < need {
            g
        } else {
            g.with_surface(surface, g.surfaces[surface].write_spec(rect, data.take(need)))
        }
    } else if codec == gfx::CODEC_PLANAR {
        match planar::decompress_spec(data, rect.width as nat, rect.height as nat) {
            Err(_) => g,
            Ok(bgrx) => g.with_surface(surface, g.surfaces[surface].write_spec(rect, bgrx)),
        }
    } else if codec == gfx::CODEC_CLEARCODEC {
        clear_spec(g, surface, rect, data)
    } else {
        g
    }
}

/// The first `n` rectangles a Progressive PDU repainted, written to a surface.
pub open spec fn painted(s: SurfaceView, paints: Seq<PaintView>, n: nat) -> SurfaceView
    decreases n,
{
    if n == 0 {
        s
    } else {
        painted(s, paints, (n - 1) as nat).write_spec(rect_of(paints[n - 1].rect), paints[n - 1].pixels)
    }
}

/// A Progressive PDU for a surface: its blocks carry their own rectangles, in surface
/// coordinates, and the decoder keeps the tiles between PDUs. The regions before a fault
/// are painted.
pub open spec fn draw_progressive_spec(g: GraphicsView, surface: u16, format: u8, data: Seq<u8>) -> GraphicsView {
    if !g.surfaces.contains_key(surface) || !drawable(format) {
        g
    } else {
        let s = g.surfaces[surface];
        let tiles = match g.progressive {
            Some(p) => p,
            None => Map::empty(),
        };
        // The tiles share the surfaces' budget: what the surfaces hold is not theirs.
        let taken = weight(g.surfaces, surface_bytes());
        let budget = if taken < MAX_DESKTOP_BYTES { (MAX_DESKTOP_BYTES - taken) as nat } else { 0 };
        let run = progressive::decompress_spec(tiles, surface, s.width, s.height, data, budget).0;
        GraphicsView {
            progressive: Some(tiles.insert(surface, run.grid)),
            ..g.with_surface(surface, painted(s, run.paints, run.paints.len()))
        }
    }
}

/// The first `n` rectangles of a fill, each clipped to the surface, as [MS-RDPEGFX]
/// 3.3.5.4 has it.
pub open spec fn fills(s: SurfaceView, rgb: Seq<u8>, rects: Seq<Rect16>, n: nat) -> SurfaceView
    decreases n,
{
    if n == 0 {
        s
    } else {
        let before = fills(s, rgb, rects, (n - 1) as nat);
        match rect_of(rects[n - 1]).spec_clipped(s.bounds()) {
            Some(rect) => before.fill_spec(rect, rgb),
            None => before,
        }
    }
}

pub open spec fn solid_fill_spec(g: GraphicsView, surface: u16, color: Seq<u8>, rects: Seq<Rect16>) -> GraphicsView {
    if !g.surfaces.contains_key(surface) {
        g
    } else {
        let rgb = seq![color[2], color[1], color[0]];
        g.with_surface(surface, fills(g.surfaces[surface], rgb, rects, rects.len()))
    }
}

/// Packed rows stamped down at the first `n` of a list of points, each that fits.
pub open spec fn stamps(
    s: SurfaceView,
    width: u32,
    height: u32,
    packed: Seq<u8>,
    points: Seq<Point16>,
    n: nat,
) -> SurfaceView
    decreases n,
{
    if n == 0 {
        s
    } else {
        let before = stamps(s, width, height, packed, points, (n - 1) as nat);
        let rect = Rect { x: points[n - 1].x as u32, y: points[n - 1].y as u32, width, height };
        if before.contains(rect) { before.copy_in_spec(rect, packed) } else { before }
    }
}

/// One rectangle of a surface copied to each of a list of points, on the same surface or
/// another. The source is lifted out whole first, so a copy that overlaps itself (a
/// scroll) is still correct.
pub open spec fn surface_to_surface_spec(
    g: GraphicsView,
    src: u16,
    dst: u16,
    rect: Rect,
    points: Seq<Point16>,
) -> GraphicsView {
    if !g.surfaces.contains_key(src) || !g.surfaces[src].contains(rect) || !g.surfaces.contains_key(dst) {
        g
    } else {
        let packed = g.surfaces[src].copy_out_spec(rect);
        g.with_surface(
            dst,
            stamps(g.surfaces[dst], rect.width, rect.height, packed, points, points.len()),
        )
    }
}

/// One rectangle of a surface lifted into a cache slot, in place of whatever the slot
/// held. A host that goes past the budget is left with an empty slot: the old rectangle
/// must not stand in for the new one.
pub open spec fn surface_to_cache_spec(g: GraphicsView, surface: u16, slot: u16, rect: Rect) -> GraphicsView {
    let bytes = 4 * (rect.width * rect.height);
    if !g.surfaces.contains_key(surface) || !g.surfaces[surface].contains(rect) {
        g
    } else if weight(g.caches, cache_bytes_unless(slot)) + bytes > CACHE_BUDGET {
        GraphicsView { caches: g.caches.remove(slot), ..g }
    } else {
        GraphicsView {
            caches: g.caches.insert(
                slot,
                CacheView {
                    width: rect.width,
                    height: rect.height,
                    pixels: g.surfaces[surface].copy_out_spec(rect),
                },
            ),
            ..g
        }
    }
}

pub open spec fn cache_to_surface_spec(g: GraphicsView, slot: u16, surface: u16, points: Seq<Point16>) -> GraphicsView {
    if !g.caches.contains_key(slot) || !g.surfaces.contains_key(surface) {
        g
    } else {
        let c = g.caches[slot];
        g.with_surface(
            surface,
            stamps(g.surfaces[surface], c.width, c.height, c.pixels, points, points.len()),
        )
    }
}

/// What a frame's end shows: the framebuffer, and what the session is told.
pub struct Shown {
    pub frame: FrameView,
    pub updates: Seq<Update>,
}

/// One changed rectangle of a mapped surface onto the framebuffer: clipped to the
/// surface, moved to where the surface is mapped, and clipped to the output.
pub open spec fn present_rect(s: SurfaceView, output: Rect, shown: Shown, rect: Rect) -> Shown {
    match (s.mapped, rect.spec_clipped(s.bounds())) {
        (Some((ox, oy)), Some(r)) => {
            let moved = Rect {
                x: crate::framebuffer::saturated(ox, r.x) as u32,
                y: crate::framebuffer::saturated(oy, r.y) as u32,
                width: r.width,
                height: r.height,
            };
            match moved.spec_clipped(output) {
                None => shown,
                Some(placed) => {
                    let (frame, done) = blit_from_spec(
                        shown.frame,
                        s.pixels,
                        4 * s.width,
                        (placed.x - ox, placed.y - oy),
                        placed,
                    );
                    Shown {
                        frame,
                        updates: if done { shown.updates.push(Update::Paint(placed)) } else { shown.updates },
                    }
                },
            }
        },
        _ => shown,
    }
}

/// The first `n` changed rectangles of a surface.
pub open spec fn present_surface(s: SurfaceView, output: Rect, shown: Shown, n: nat) -> Shown
    decreases n,
{
    if n == 0 {
        shown
    } else {
        present_rect(s, output, present_surface(s, output, shown, (n - 1) as nat), s.invalid[n - 1])
    }
}

/// Every changed rectangle of a surface, after those of the surfaces before it.
pub open spec fn presenting(output: Rect) -> spec_fn(Shown, u16, SurfaceView) -> Shown {
    |shown: Shown, number: u16, s: SurfaceView| present_surface(s, output, shown, s.invalid.len())
}

/// Nothing changed in any surface since this moment.
pub open spec fn settled(surfaces: Map<u16, SurfaceView>) -> Map<u16, SurfaceView> {
    surfaces.map_values(|s: SurfaceView| SurfaceView { invalid: seq![], ..s })
}

/// Every surface black again, with nothing drawn into it.
pub open spec fn blanked(surfaces: Map<u16, SurfaceView>) -> Map<u16, SurfaceView> {
    surfaces.map_values(
        |s: SurfaceView|
            SurfaceView {
                pixels: Seq::new(s.pixels.len(), |i: int| 0u8),
                invalid: seq![],
                ..s
            },
    )
}

/// The pipeline, the framebuffer it shows on, and what the session has been told.
pub struct State {
    pub graphics: GraphicsView,
    pub frame: FrameView,
    pub updates: Seq<Update>,
}

/// The EndFrame: every changed rectangle of every mapped surface, onto the framebuffer.
/// Nothing is on the output before a ResetGraphics has said its size.
pub open spec fn present_spec(s: State) -> State {
    let g = GraphicsView { surfaces: settled(s.graphics.surfaces), ..s.graphics };
    match s.graphics.output {
        None => State { graphics: g, ..s },
        Some((width, height)) => {
            let shown = fold(
                s.graphics.surfaces,
                presenting(Rect { x: 0, y: 0, width, height }),
                Shown { frame: s.frame, updates: s.updates },
            );
            State { graphics: g, frame: shown.frame, updates: shown.updates }
        },
    }
}

/// A frame's end: what it shows, and the count of frames ended.
#[verifier::opaque]
pub open spec fn end_frame_spec(s: State, frame: u32) -> State {
    let shown = present_spec(
        State { graphics: GraphicsView { frame: None, ..s.graphics }, ..s },
    );
    let ended = s.graphics.decoded;
    let decoded: u32 = if ended == u32::MAX { 0 } else { (ended + 1) as u32 };
    State {
        graphics: GraphicsView { decoded, ..shown.graphics },
        frame: shown.frame,
        updates: shown.updates.push(Update::Frame { id: frame, decoded }),
    }
}

/// What one PDU does.
pub open spec fn act_spec(s: State, message: MessageView) -> (State, Result<(), GraphicsError>) {
    let g = s.graphics;
    match message {
        MessageView::CapsConfirm { .. } => (
            State {
                graphics: g.commanded(gfx::CMD_CAPS_CONFIRM),
                updates: s.updates.push(Update::Confirmed),
                ..s
            },
            Ok(()),
        ),
        MessageView::ResetGraphics { width, height, .. } => {
            let g = g.commanded(gfx::CMD_RESET_GRAPHICS);
            if width * height * 4 > MAX_DESKTOP_BYTES {
                (
                    State { graphics: g, ..s },
                    Err(GraphicsError::Output(TooLarge { width, height })),
                )
            } else {
                (
                    State {
                        graphics: GraphicsView {
                            output: Some((width, height)),
                            surfaces: blanked(g.surfaces),
                            ..g
                        },
                        frame: blank(width, height),
                        updates: s.updates.push(Update::Reset { width, height }),
                    },
                    Ok(()),
                )
            }
        },
        MessageView::CreateSurface { surface, width, height, .. } => {
            let g = g.commanded(gfx::CMD_CREATE_SURFACE);
            let held = held_without(g, surface);
            if held + 4 * (width * height) > MAX_DESKTOP_BYTES {
                (
                    State { graphics: g, ..s },
                    Err(GraphicsError::Surface { width, height, held: (held / 0x10_0000) as u64 }),
                )
            } else {
                (
                    State {
                        graphics: g.with_surface(
                            surface,
                            SurfaceView::new_spec(width as u32, height as u32),
                        ).forgetting(surface),
                        ..s
                    },
                    Ok(()),
                )
            }
        },
        MessageView::DeleteSurface { surface } => {
            let g = g.commanded(gfx::CMD_DELETE_SURFACE);
            (
                State {
                    graphics: GraphicsView {
                        surfaces: g.surfaces.remove(surface),
                        ..g
                    }.forgetting(surface),
                    ..s
                },
                Ok(()),
            )
        },
        MessageView::MapSurfaceToOutput { surface, x, y } => {
            let g = g.commanded(gfx::CMD_MAP_SURFACE_TO_OUTPUT);
            (
                State {
                    graphics: if g.surfaces.contains_key(surface) {
                        g.with_surface(
                            surface,
                            SurfaceView { mapped: Some((x, y)), ..g.surfaces[surface] },
                        )
                    } else {
                        g
                    },
                    ..s
                },
                Ok(()),
            )
        },
        MessageView::StartFrame { frame, .. } => (
            State {
                graphics: GraphicsView {
                    frame: Some(frame),
                    ..g.commanded(gfx::CMD_START_FRAME)
                },
                ..s
            },
            Ok(()),
        ),
        MessageView::EndFrame { frame } => (
            end_frame_spec(State { graphics: g.commanded(gfx::CMD_END_FRAME), ..s }, frame),
            Ok(()),
        ),
        _ => (State { graphics: draws_spec(g, message), ..s }, Ok(())),
    }
}

/// What a PDU that only draws, or does nothing, leaves.
#[verifier::opaque]
pub open spec fn draws_spec(g: GraphicsView, message: MessageView) -> GraphicsView {
    match message {
        MessageView::WireToSurface1 { surface, codec, format, rect, data } => draw_spec(
            g.commanded(gfx::CMD_WIRE_TO_SURFACE_1).coded(codec),
            surface,
            codec,
            format,
            rect_of(rect),
            data,
        ),
        MessageView::WireToSurface2 { surface, codec, format, data, .. } => {
            let g = g.commanded(gfx::CMD_WIRE_TO_SURFACE_2).coded(codec);
            if codec == gfx::CODEC_CAPROGRESSIVE {
                draw_progressive_spec(g, surface, format, data)
            } else {
                g
            }
        },
        MessageView::SolidFill { surface, color, rects } => solid_fill_spec(
            g.commanded(gfx::CMD_SOLID_FILL),
            surface,
            color,
            rects,
        ),
        MessageView::SurfaceToSurface { src, dst, rect, points } => surface_to_surface_spec(
            g.commanded(gfx::CMD_SURFACE_TO_SURFACE),
            src,
            dst,
            rect_of(rect),
            points,
        ),
        MessageView::SurfaceToCache { surface, slot, rect, .. } => surface_to_cache_spec(
            g.commanded(gfx::CMD_SURFACE_TO_CACHE),
            surface,
            slot,
            rect_of(rect),
        ),
        MessageView::CacheToSurface { slot, surface, points } => cache_to_surface_spec(
            g.commanded(gfx::CMD_CACHE_TO_SURFACE),
            slot,
            surface,
            points,
        ),
        MessageView::EvictCacheEntry { slot } => {
            let g = g.commanded(gfx::CMD_EVICT_CACHE_ENTRY);
            GraphicsView { caches: g.caches.remove(slot), ..g }
        },
        MessageView::DeleteEncodingContext { .. } => g.commanded(gfx::CMD_DELETE_ENCODING_CONTEXT),
        MessageView::Other { command, .. } => g.commanded(command),
        _ => g,
    }
}

/// The PDUs from `c` on: each acted on in turn, up to one that does not decode or cannot
/// be acted on, which ends the session.
pub open spec fn receive_spec(c: Cursor, s: State) -> (State, Result<(), GraphicsError>)
    decreases c.left(),
{
    if c.left() == 0 {
        (s, Ok(()))
    } else {
        match gfx::pdu_step(c) {
            Step::Stop(e) => (s, Err(GraphicsError::Malformed(e))),
            Step::Got(message, next) => {
                let (after, res) = act_spec(s, message);
                match res {
                    Err(e) => (after, Err(e)),
                    Ok(_) => if 0 <= next.left() < c.left() {
                        receive_spec(next, after)
                    } else {
                        (after, Ok(()))
                    },
                }
            },
        }
    }
}

impl Graphics {
    pub closed spec fn wf(&self) -> bool {
        &&& self@.wf()
        &&& match self.progressive {
            Some(p) => p.wf(),
            None => true,
        }
    }

    pub fn new() -> (g: Graphics)
        ensures
            g.wf(),
            g@.wf(),
            g@ == (GraphicsView {
                surfaces: Map::empty(),
                caches: Map::empty(),
                output: None,
                frame: None,
                decoded: 0,
                tally: TallyView { commands: Map::empty(), codecs: Map::empty() },
                clear: None,
                progressive: None,
            }),
    {
        proof {
            nothing_weighs_nothing(surface_bytes(), 0x1_0000);
            nothing_weighs_nothing(cache_bytes(), 0x1_0000);
        }
        Graphics {
            surfaces: Table::new(),
            caches: Table::new(),
            output: None,
            frame: None,
            decoded: 0,
            tally: Tally::new(),
            planes: Vec::new(),
            pixels: Vec::new(),
            clear: None,
            progressive: None,
        }
    }

    /// What the surfaces' pixels take together, but for one of them.
    fn surfaces_held(&self, except: Option<u16>) -> (held: u64)
        requires
            self.wf(),
        ensures
            held == weight(
                self@.surfaces,
                match except {
                    Some(surface) => surface_bytes_unless(surface),
                    None => surface_bytes(),
                },
            ),
            held <= 0x1_0000_0000_0000,
    {
        let ghost weigh = match except {
            Some(surface) => surface_bytes_unless(surface),
            None => surface_bytes(),
        };
        let mut held: u64 = 0;
        let list = self.surfaces.list();
        proof { walk_weighs(&self.surfaces, weigh); }
        for i in 0..list.len()
            invariant
                self.wf(),
                list@ == self.surfaces.numbers(),
                list@.len() <= 0x1_0000,
                self.surfaces.listed(),
                weigh == (match except {
                    Some(surface) => surface_bytes_unless(surface),
                    None => surface_bytes(),
                }),
                held == weight_before(&self.surfaces, weigh, i as int),
                held <= i * 0x1_0000_0000,
        {
            proof {
                walk_weighs(&self.surfaces, weigh);
                let k = self.surfaces.numbers()[i as int];
                assert(self@.surfaces.contains_key(k));
                picture_is_bounded(self@.surfaces[k].width as int, self@.surfaces[k].height as int);
            }
            let number: u16 = list[i];
            let bytes: u64 = self.surfaces.value(number).pixels.len() as u64;
            let counts = match except {
                Some(surface) => number != surface,
                None => true,
            };
            if counts {
                held = held + bytes;
            }
            assert(weight_before(&self.surfaces, weigh, i + 1) == held);
        }
        held
    }

    /// What the cache slots take together, but for one of them.
    fn caches_held(&self, slot: u16) -> (held: u64)
        requires
            self.wf(),
        ensures
            held == weight(self@.caches, cache_bytes_unless(slot)),
            held <= 0x1_0000_0000_0000,
    {
        let ghost weigh = cache_bytes_unless(slot);
        let mut held: u64 = 0;
        let list = self.caches.list();
        proof { walk_weighs(&self.caches, weigh); }
        for i in 0..list.len()
            invariant
                self.wf(),
                list@ == self.caches.numbers(),
                list@.len() <= 0x1_0000,
                self.caches.listed(),
                weigh == cache_bytes_unless(slot),
                held == weight_before(&self.caches, weigh, i as int),
                held <= i * 0x1_0000_0000,
        {
            proof {
                walk_weighs(&self.caches, weigh);
                let k = self.caches.numbers()[i as int];
                assert(self@.caches.contains_key(k));
                picture_is_bounded(self@.caches[k].width as int, self@.caches[k].height as int);
            }
            let bytes: u64 = self.caches.value(list[i]).pixels.len() as u64;
            if list[i] != slot {
                held = held + bytes;
            }
            assert(weight_before(&self.caches, weigh, i + 1) == held);
        }
        held
    }

    /// A surface that was taken out to be drawn into goes back.
    fn put_back(&mut self, surface: u16, s: Surface)
        requires
            old(self).wf(),
            s@.wf(),
            weight(old(self)@.surfaces.insert(surface, s@), surface_bytes()) + tiles_held(
                old(self)@.progressive,
            ) <= MAX_DESKTOP_BYTES,
        ensures
            final(self).wf(),
            final(self)@ == old(self)@.with_surface(surface, s@),
    {
        self.surfaces.insert(surface, s);
        assert forall|k: u16| #[trigger] self@.surfaces.contains_key(k) implies self@.surfaces[k].wf() by {
            assert(k == surface || old(self)@.surfaces.contains_key(k));
        }
    }

    /// Take a surface out to be drawn into.
    fn take(&mut self, surface: u16) -> (s: Option<Surface>)
        requires
            old(self).wf(),
        ensures
            final(self).wf(),
            match s {
                Some(s) => {
                    &&& old(self)@.surfaces.contains_key(surface)
                    &&& s@ == old(self)@.surfaces[surface]
                    &&& s@.wf()
                    &&& final(self)@ == (GraphicsView {
                        surfaces: old(self)@.surfaces.remove(surface),
                        ..old(self)@
                    })
                },
                None => !old(self)@.surfaces.contains_key(surface) && final(self)@ == old(self)@,
            },
            final(self).pixels == old(self).pixels,
    {
        let s = self.surfaces.remove(surface);
        proof {
            remove_weighs(old(self)@.surfaces, surface_bytes(), surface);
            assert forall|k: u16| #[trigger] self@.surfaces.contains_key(k) implies self@.surfaces[k].wf() by {
                assert(old(self)@.surfaces.contains_key(k));
            }
            if s is None {
                assert(self@.surfaces =~= old(self)@.surfaces);
            }
        }
        s
    }
}

/// A surface that was drawn into takes what it took.
proof fn drawing_takes_nothing(all: Map<u16, SurfaceView>, k: u16, s: SurfaceView)
    requires
        all.contains_key(k),
        s.pixels.len() == all[k].pixels.len(),
    ensures
        all.remove(k).insert(k, s) == all.insert(k, s),
        weight(all.insert(k, s), surface_bytes()) == weight(all, surface_bytes()),
{
    assert(all.remove(k).insert(k, s) =~= all.insert(k, s));
    insert_weighs(all, surface_bytes(), k, s);
}

impl Graphics {
    /// A ClearCodec rectangle, decoded straight onto its surface.
    fn draw_clear(&mut self, surface: u16, r: Rect, data: &[u8])
        requires
            old(self).wf(),
            old(self)@.surfaces.contains_key(surface),
            old(self)@.surfaces[surface].contains(r),
            r.width <= 0xFFFF,
            r.height <= 0xFFFF,
        ensures
            final(self).wf(),
            final(self)@ == clear_spec(old(self)@, surface, r, data@),
    {
        let ghost all = self@.surfaces;
        let mut decoder = match self.clear.take() {
            Some(decoder) => decoder,
            None => Clear::new(),
        };
        if let Some(mut found) = self.take(surface) {
            let (width, height) = (found.width as usize, found.height as usize);
            let ghost before = found@;
            let mut canvas = Canvas::new(found.pixels.as_mut_slice(), width, height);
            // One rectangle the server will draw again where it does not decode; not the
            // session. What was painted before the fault is on the surface all the same.
            let _ = decoder.decompress(
                data,
                &mut canvas,
                r.x as usize,
                r.y as usize,
                r.width as u16,
                r.height as u16,
            );
            let columns = canvas.painted();
            found.invalidate(r);
            if let Some((x, y, w, h)) = columns {
                found.invalidate(Rect { x: x as u32, y: y as u32, width: w as u32, height: h as u32 });
            }
            proof { drawing_takes_nothing(all, surface, found@); }
            self.put_back(surface, found);
        }
        self.clear = Some(decoder);
    }

    /// One rectangle of pixels for a surface, in whichever codec the server chose.
    fn draw(&mut self, surface: u16, codec: u16, format: u8, rect: Rect16, data: &[u8])
        requires
            old(self).wf(),
            rect.full(),
        ensures
            final(self).wf(),
            final(self)@ == draw_spec(old(self)@, surface, codec, format, rect_of(rect), data@),
    {
        let r = to_rect(rect);
        let fits = match self.surfaces.get(surface) {
            Some(found) => {
                assert(self@.surfaces.contains_key(surface));
                rect.right as u32 <= found.width && rect.bottom as u32 <= found.height
            },
            None => false,
        };
        if !fits || (format != gfx::PIXEL_XRGB_8888 && format != gfx::PIXEL_ARGB_8888) {
            return;
        }
        let ghost all = self@.surfaces;
        let (width, height) = (rect.width(), rect.height());
        proof {
            picture_is_bounded(r.width as int, r.height as int);
        }
        if codec == gfx::CODEC_UNCOMPRESSED {
            let need: u64 = 4 * (width as u64 * height as u64);
            if (data.len() as u64) < need {
                return;
            }
            if let Some(mut found) = self.take(surface) {
                let bgrx = slice_subrange(data, 0, need as usize);
                assert(bgrx@ =~= data@.take(need as int));
                found.write(r, bgrx);
                proof { drawing_takes_nothing(all, surface, found@); }
                self.put_back(surface, found);
            }
        } else if codec == gfx::CODEC_PLANAR {
            // What does not decode is one rectangle the server will draw again; not the
            // session.
            if planar::decompress(data, &mut self.planes, &mut self.pixels, width, height).is_ok() {
                if let Some(mut found) = self.take(surface) {
                    found.write(r, self.pixels.as_slice());
                    proof { drawing_takes_nothing(all, surface, found@); }
                    self.put_back(surface, found);
                }
            }
        } else if codec == gfx::CODEC_CLEARCODEC {
            self.draw_clear(surface, r, data);
        }
    }
}

impl Graphics {
    /// A Progressive PDU for a surface.
    fn draw_progressive(&mut self, surface: u16, format: u8, data: &[u8])
        requires
            old(self).wf(),
        ensures
            final(self).wf(),
            final(self)@ == draw_progressive_spec(old(self)@, surface, format, data@),
    {
        if !self.surfaces.contains_key(surface) || (format != gfx::PIXEL_XRGB_8888 && format
            != gfx::PIXEL_ARGB_8888) {
            return;
        }
        let ghost all = self@.surfaces;
        let taken: u64 = self.surfaces_held(None);
        let budget: u64 = if taken < MAX_DESKTOP_BYTES as u64 { MAX_DESKTOP_BYTES as u64 - taken } else { 0 };
        proof { nothing_weighs_nothing(progressive::tile_bytes(), 0x1_0000); }
        let mut tiles = match self.progressive.take() {
            Some(tiles) => tiles,
            None => Progressive::new(),
        };
        if let Some(mut found) = self.take(surface) {
            proof { few_tiles(found.width, found.height); }
            let ghost start = found@;
            // On a fault the regions before it are painted; the host will draw the rest
            // again. Not the session.
            let (paints, _) = tiles.decompress(surface, found.width, found.height, data, budget);
            for n in 0..paints.len()
                invariant
                    found@.wf(),
                    found@.width == start.width,
                    found@.height == start.height,
                    progressive::all_fit(
                        progressive::paint_views(paints@),
                        start.width,
                        start.height,
                    ),
                    found@ == painted(start, progressive::paint_views(paints@), n as nat),
            {
                let ghost p = progressive::paint_views(paints@)[n as int];
                assert(progressive::paint_fits(p, start.width, start.height));
                assert(p == paints@[n as int]@);
                let rect = to_rect(paints[n].rect);
                found.write(rect, paints[n].pixels.as_slice());
            }
            proof { drawing_takes_nothing(all, surface, found@); }
            self.put_back(surface, found);
        }
        self.progressive = Some(tiles);
    }

    /// Fill rectangles of a surface with one colour. The fill colour's alpha is ignored.
    fn solid_fill(&mut self, surface: u16, color: [u8; 4], rects: &Vec<Rect16>)
        requires
            old(self).wf(),
            forall|i: int| 0 <= i < rects@.len() ==> (#[trigger] rects@[i]).full(),
        ensures
            final(self).wf(),
            final(self)@ == solid_fill_spec(old(self)@, surface, color@, rects@),
    {
        let ghost all = self@.surfaces;
        if let Some(mut found) = self.take(surface) {
            let rgb = [color[2], color[1], color[0]];
            assert(rgb@ =~= seq![color@[2], color@[1], color@[0]]);
            let ghost start = found@;
            let bounds = Rect { x: 0, y: 0, width: found.width, height: found.height };
            for n in 0..rects.len()
                invariant
                    found@.wf(),
                    found@.width == start.width,
                    found@.height == start.height,
                    bounds == start.bounds(),
                    forall|i: int| 0 <= i < rects@.len() ==> (#[trigger] rects@[i]).full(),
                    found@ == fills(start, rgb@, rects@, n as nat),
            {
                assert(rects@[n as int].full());
                let rect = to_rect(rects[n]);
                if let Some(rect) = rect.clipped(bounds) {
                    found.fill(rect, rgb);
                }
            }
            proof { drawing_takes_nothing(all, surface, found@); }
            self.put_back(surface, found);
        }
    }
}

/// A surface has no more tiles than can be counted.
proof fn few_tiles(width: u32, height: u32)
    requires
        width <= gfx::MAX_DIMENSION,
        height <= gfx::MAX_DIMENSION,
    ensures
        progressive::tiles_in(width, height) <= usize::MAX,
{
    let (a, b) = (progressive::tiles_along(width) as int, progressive::tiles_along(height) as int);
    assert(0 <= a * b <= 512 * 512) by (nonlinear_arith)
        requires
            0 <= a <= 512,
            0 <= b <= 512,
    ;
}

/// Stamp packed rows down at each of a list of points that fits.
fn stamp_all(s: &mut Surface, width: u32, height: u32, packed: &Vec<u8>, points: &Vec<Point16>)
    requires
        old(s)@.wf(),
        width <= gfx::MAX_DIMENSION,
        height <= gfx::MAX_DIMENSION,
        packed@.len() == 4 * (width * height),
    ensures
        final(s)@.wf(),
        final(s)@ == stamps(old(s)@, width, height, packed@, points@, points@.len()),
        final(s)@.pixels.len() == old(s)@.pixels.len(),
{
    let ghost start = s@;
    for n in 0..points.len()
        invariant
            s@.wf(),
            start == old(s)@,
            width <= gfx::MAX_DIMENSION,
            height <= gfx::MAX_DIMENSION,
            packed@.len() == 4 * (width * height),
            s@ == stamps(start, width, height, packed@, points@, n as nat),
            s@.pixels.len() == start.pixels.len(),
    {
        let rect = Rect { x: points[n].x as u32, y: points[n].y as u32, width, height };
        if rect.x + rect.width <= s.width && rect.y + rect.height <= s.height {
            s.copy_in(rect, packed);
        }
    }
}

impl Graphics {
    /// Copy one rectangle of a surface to each of a list of points, on the same
    /// surface or another.
    fn surface_to_surface(&mut self, src: u16, dst: u16, rect: Rect16, points: &Vec<Point16>)
        requires
            old(self).wf(),
            rect.full(),
        ensures
            final(self).wf(),
            final(self)@ == surface_to_surface_spec(old(self)@, src, dst, rect_of(rect), points@),
    {
        let ghost all = self@.surfaces;
        let r = to_rect(rect);
        let packed = match self.surfaces.get(src) {
            Some(source) => {
                assert(self@.surfaces.contains_key(src));
                if rect.right as u32 > source.width || rect.bottom as u32 > source.height {
                    return;
                }
                source.copy_out(r)
            },
            None => {
                return;
            },
        };
        if let Some(mut target) = self.take(dst) {
            stamp_all(&mut target, r.width, r.height, &packed, points);
            proof { drawing_takes_nothing(all, dst, target@); }
            self.put_back(dst, target);
        }
    }

    /// Lift one rectangle of a surface into a cache slot, replacing whatever the slot
    /// held.
    fn surface_to_cache(&mut self, surface: u16, slot: u16, rect: Rect16)
        requires
            old(self).wf(),
            rect.full(),
        ensures
            final(self).wf(),
            final(self)@ == surface_to_cache_spec(old(self)@, surface, slot, rect_of(rect)),
    {
        let r = to_rect(rect);
        let source = match self.surfaces.get(surface) {
            Some(source) => source,
            None => {
                return;
            },
        };
        assert(self@.surfaces.contains_key(surface));
        if rect.right as u32 > source.width || rect.bottom as u32 > source.height {
            return;
        }
        // One budget for every slot together; the slot being replaced gives its
        // bytes back first.
        proof { picture_is_bounded(r.width as int, r.height as int); }
        let bytes: u64 = 4 * (r.width as u64 * r.height as u64);
        let held: u64 = self.caches_held(slot);
        if held + bytes > CACHE_BUDGET as u64 {
            // The host thinks the slot holds the new rectangle now; the old one must
            // not stand in for it.
            let _ = self.caches.remove(slot);
            proof { remove_weighs(old(self)@.caches, cache_bytes(), slot); }
            assert forall|k: u16| #[trigger] self@.caches.contains_key(k) implies self@.caches[k].wf() by {
                assert(old(self)@.caches.contains_key(k));
            }
            return;
        }
        let pixels = source.copy_out(r);
        proof {
            let c = CacheView { width: r.width, height: r.height, pixels: pixels@ };
            leaving_out_weighs(self@.caches, cache_bytes(), cache_bytes_unless(slot), slot);
            remove_weighs(self@.caches, cache_bytes(), slot);
            insert_weighs(self@.caches, cache_bytes(), slot, c);
        }
        self.caches.insert(slot, Cache { width: r.width, height: r.height, pixels });
        assert forall|k: u16| #[trigger] self@.caches.contains_key(k) implies self@.caches[k].wf() by {
            assert(k == slot || old(self)@.caches.contains_key(k));
        }
    }

    /// Stamp a cached rectangle down onto a surface at each of a list of points.
    fn cache_to_surface(&mut self, slot: u16, surface: u16, points: &Vec<Point16>)
        requires
            old(self).wf(),
        ensures
            final(self).wf(),
            final(self)@ == cache_to_surface_spec(old(self)@, slot, surface, points@),
    {
        let ghost all = self@.surfaces;
        if !self.caches.contains_key(slot) {
            return;
        }
        if let Some(mut target) = self.take(surface) {
            if let Some(cache) = self.caches.get(slot) {
                assert(self@.caches.contains_key(slot));
                stamp_all(&mut target, cache.width, cache.height, &cache.pixels, points);
            }
            proof { drawing_takes_nothing(all, surface, target@); }
            self.put_back(surface, target);
        }
    }

    /// Nothing changed in any surface since this moment.
    fn settle(&mut self, blank: bool)
        requires
            old(self).wf(),
        ensures
            final(self).wf(),
            final(self)@ == (GraphicsView {
                surfaces: if blank { blanked(old(self)@.surfaces) } else { settled(old(self)@.surfaces) },
                ..old(self)@
            }),
    {
        let ghost start = self@;
        let ghost want = if blank { blanked(start.surfaces) } else { settled(start.surfaces) };
        let list = self.surfaces.list();
        let ghost numbers = list@;
        let ghost n = list@.len();
        for i in 0..list.len()
            invariant
                start == old(self)@,
                start.wf(),
                n == numbers.len(),
                list@ == numbers,
                want == (if blank { blanked(start.surfaces) } else { settled(start.surfaces) }),
                self.surfaces@.dom() == start.surfaces.dom(),
                forall|j: int| 0 <= j < n ==> start.surfaces.contains_key(#[trigger] numbers[j]),
                forall|j: int, k: int| 0 <= j < k < n ==> (#[trigger] numbers[j]) < (#[trigger] numbers[k]),
                forall|j: int| 0 <= j < i ==> self.surfaces@[#[trigger] numbers[j]] == want[numbers[j]],
                forall|j: int| i <= j < n ==> self.surfaces@[#[trigger] numbers[j]] == start.surfaces[numbers[j]],
                self@ == (GraphicsView { surfaces: self.surfaces@, ..start }),
                self.progressive == old(self).progressive,
        {
            let ghost k = numbers[i as int];
            assert(self.surfaces@.contains_key(k));
            if let Some(found) = self.surfaces.remove(list[i]) {
                let mut s = found;
                assert(s@ == start.surfaces[k]);
                s.invalid.clear();
                assert(s.invalid@ =~= seq![]);
                if blank {
                    s.pixels = zeroed(s.pixels.len());
                }
                self.surfaces.insert(list[i], s);
            }
            assert(self.surfaces@.dom() =~= start.surfaces.dom());
            assert(self.surfaces@[k] == want[k]);
        }
        proof {
            assert forall|k: u16| #[trigger] start.surfaces.contains_key(k) implies self.surfaces@[k] == want[k] by {
                let j = choose|j: int| 0 <= j < numbers.len() && numbers[j] == k;
                assert(numbers[j] == k);
            }
            assert(self.surfaces@ =~= want);
            same_weights(want, start.surfaces, surface_bytes(), 0x1_0000);
            assert forall|k: u16| #[trigger] self@.surfaces.contains_key(k) implies self@.surfaces[k].wf() by {
                assert(start.surfaces.contains_key(k));
                assert(start.surfaces[k].wf());
            }
        }
    }
}

/// Show one surface's changed rectangles.
fn show(s: &Surface, output: Rect, framebuffer: &mut Framebuffer, updates: &mut Vec<Update>)
    requires
        s@.wf(),
        old(framebuffer).wf(),
    ensures
        final(framebuffer).wf(),
        (Shown { frame: final(framebuffer)@, updates: final(updates)@ }) == present_surface(
            s@,
            output,
            Shown { frame: old(framebuffer)@, updates: old(updates)@ },
            s@.invalid.len(),
        ),
{
    let ghost start = Shown { frame: framebuffer@, updates: updates@ };
    let bounds = Rect { x: 0, y: 0, width: s.width, height: s.height };
    for n in 0..s.invalid.len()
        invariant
            s@.wf(),
            framebuffer.wf(),
            bounds == s@.bounds(),
            start == (Shown { frame: old(framebuffer)@, updates: old(updates)@ }),
            (Shown { frame: framebuffer@, updates: updates@ }) == present_surface(
                s@,
                output,
                start,
                n as nat,
            ),
    {
        if let Some((ox, oy)) = s.mapped {
            if let Some(r) = s.invalid[n].clipped(bounds) {
                let moved = Rect {
                    x: ox.saturating_add(r.x),
                    y: oy.saturating_add(r.y),
                    width: r.width,
                    height: r.height,
                };
                if let Some(placed) = moved.clipped(output) {
                    // The source pixel under the placed rectangle's corner.
                    let origin = ((placed.x - ox) as usize, (placed.y - oy) as usize);
                    let stride: usize = s.width as usize * 4;
                    proof {
                        source_is_reachable(
                            s@,
                            origin.0 as int,
                            origin.1 as int,
                            placed.width as int,
                            placed.height as int,
                        );
                    }
                    if framebuffer.blit_from(s.pixels.as_slice(), stride, origin, placed) {
                        updates.push(Update::Paint(placed));
                    }
                }
            }
        }
    }
}

/// What is read of a surface can be counted to.
proof fn source_is_reachable(s: SurfaceView, x: int, y: int, width: int, height: int)
    requires
        s.wf(),
        0 <= x,
        0 <= y,
        0 < width,
        0 < height,
        x + width <= s.width,
        y + height <= s.height,
    ensures
        (y + height) * (4 * s.width) + x * 4 <= 0xFFFF_FFFF,
{
    assert((y + height) * (4 * s.width) <= 32_766 * (4 * 32_766)) by (nonlinear_arith)
        requires
            0 <= y + height <= 32_766,
            0 <= s.width <= 32_766,
    ;
}

impl Graphics {
    fn command(&mut self, command: u16)
        requires
            old(self).wf(),
        ensures
            final(self).wf(),
            final(self)@ == old(self)@.commanded(command),
    {
        self.tally.command(command);
        assert(self@.surfaces == old(self)@.surfaces && self@.caches == old(self)@.caches);
    }

    fn codec(&mut self, codec: u16)
        requires
            old(self).wf(),
        ensures
            final(self).wf(),
            final(self)@ == old(self)@.coded(codec),
    {
        self.tally.codec(codec);
        assert(self@.surfaces == old(self)@.surfaces && self@.caches == old(self)@.caches);
    }

    /// The EndFrame: every changed rectangle of every mapped surface, onto the
    /// framebuffer.
    fn present(&mut self, framebuffer: &mut Framebuffer, updates: &mut Vec<Update>)
        requires
            old(self).wf(),
            old(framebuffer).wf(),
        ensures
            final(self).wf(),
            final(framebuffer).wf(),
            (State { graphics: final(self)@, frame: final(framebuffer)@, updates: final(updates)@ })
                == present_spec(
                State { graphics: old(self)@, frame: old(framebuffer)@, updates: old(updates)@ },
            ),
    {
        if let Some((width, height)) = self.output {
            let output = Rect { x: 0, y: 0, width, height };
            let ghost start = Shown { frame: framebuffer@, updates: updates@ };
            let list = self.surfaces.list();
            proof { walk_folds(&self.surfaces, presenting(output), start); }
            for i in 0..list.len()
                invariant
                    self.wf(),
                    *self == *old(self),
                    framebuffer.wf(),
                    list@ == self.surfaces.numbers(),
                    self.surfaces.listed(),
                    (Shown { frame: framebuffer@, updates: updates@ }) == fold_before(
                        &self.surfaces,
                        presenting(output),
                        start,
                        i as int,
                    ),
            {
                proof {
                    walk_folds(&self.surfaces, presenting(output), start);
                    assert(self@.surfaces.contains_key(self.surfaces.numbers()[i as int]));
                }
                show(self.surfaces.value(list[i]), output, framebuffer, updates);
                assert((Shown { frame: framebuffer@, updates: updates@ }) == fold_before(
                    &self.surfaces,
                    presenting(output),
                    start,
                    i + 1,
                ));
            }
        }
        self.settle(false);
    }

    fn reset(&mut self, width: u32, height: u32, framebuffer: &mut Framebuffer, updates: &mut Vec<Update>) -> (res:
        Result<(), GraphicsError>)
        requires
            old(self).wf(),
            old(framebuffer).wf(),
            width <= gfx::MAX_DIMENSION,
        ensures
            final(self).wf(),
            final(framebuffer).wf(),
            ({
                let s = State {
                    graphics: old(self)@,
                    frame: old(framebuffer)@,
                    updates: old(updates)@,
                };
                act_spec(s, MessageView::ResetGraphics { width, height, monitors: 0 }) == (
                    State { graphics: final(self)@, frame: final(framebuffer)@, updates: final(updates)@ },
                    res,
                )
            }),
    {
        self.command(gfx::CMD_RESET_GRAPHICS);
        match affordable(width, height) {
            Ok(_) => {},
            Err(e) => {
                return Err(GraphicsError::Output(e));
            },
        }
        framebuffer.resize(width, height);
        self.output = Some((width, height));
        // The surfaces stay, blank, until the server draws into them again.
        self.settle(true);
        updates.push(Update::Reset { width, height });
        Ok(())
    }

    fn create(&mut self, surface: u16, width: u16, height: u16) -> (res: Result<(), GraphicsError>)
        requires
            old(self).wf(),
            width <= gfx::MAX_DIMENSION,
            height <= gfx::MAX_DIMENSION,
        ensures
            final(self).wf(),
            ({
                let g = old(self)@.commanded(gfx::CMD_CREATE_SURFACE);
                let held = held_without(g, surface);
                if held + 4 * (width * height) > MAX_DESKTOP_BYTES {
                    &&& final(self)@ == g
                    &&& res == Err::<(), GraphicsError>(
                        GraphicsError::Surface { width, height, held: (held / 0x10_0000) as u64 },
                    )
                } else {
                    &&& final(self)@ == g.with_surface(
                        surface,
                        SurfaceView::new_spec(width as u32, height as u32),
                    ).forgetting(surface)
                    &&& res == Ok::<(), GraphicsError>(())
                }
            }),
    {
        self.command(gfx::CMD_CREATE_SURFACE);
        proof { picture_is_bounded(width as int, height as int); }
        let bytes: u64 = 4 * (width as u64 * height as u64);
        // One budget for every surface together: a host may create as many as it likes,
        // each small enough on its own, and the allocation that fails is the process. A
        // surface created under a number in use replaces the old one, so that one's bytes
        // come back first.
        let tiles: u64 = match &self.progressive {
            Some(tiles) => tiles.held_except(surface),
            None => 0,
        };
        let held: u128 = self.surfaces_held(Some(surface)) as u128 + tiles as u128;
        if held + bytes as u128 > MAX_DESKTOP_BYTES as u128 {
            return Err(GraphicsError::Surface { width, height, held: (held / 0x10_0000) as u64 });
        }
        // A server may create a surface under a number still in use; the new one
        // replaces the old.
        let created = Surface::new(width as u32, height as u32);
        self.forget(surface);
        proof {
            let g = old(self)@;
            leaving_out_weighs(g.surfaces, surface_bytes(), surface_bytes_unless(surface), surface);
            remove_weighs(g.surfaces, surface_bytes(), surface);
            insert_weighs(g.surfaces, surface_bytes(), surface, created@);
            match g.progressive {
                Some(p) => {
                    leaving_out_weighs(
                        p,
                        progressive::tile_bytes(),
                        progressive::bytes_unless(surface),
                        surface,
                    );
                },
                None => {},
            }
        }
        self.put_back(surface, created);
        Ok(())
    }

    fn forget(&mut self, surface: u16)
        requires
            old(self).wf(),
        ensures
            final(self).wf(),
            final(self)@ == old(self)@.forgetting(surface),
    {
        if let Some(mut tiles) = self.progressive.take() {
            proof { remove_weighs(tiles@, progressive::tile_bytes(), surface); }
            tiles.forget(surface);
            self.progressive = Some(tiles);
        }
    }

    fn map(&mut self, surface: u16, x: u32, y: u32)
        requires
            old(self).wf(),
        ensures
            final(self).wf(),
            final(self)@ == (if old(self)@.surfaces.contains_key(surface) {
                old(self)@.with_surface(
                    surface,
                    SurfaceView { mapped: Some((x, y)), ..old(self)@.surfaces[surface] },
                )
            } else {
                old(self)@
            }),
    {
        let ghost all = self@.surfaces;
        if let Some(mut found) = self.take(surface) {
            // Whatever was drawn into it before the map is still owed to the output at
            // the EndFrame, so the changed rectangles stay.
            found.mapped = Some((x, y));
            proof { drawing_takes_nothing(all, surface, found@); }
            self.put_back(surface, found);
        }
    }

    fn delete(&mut self, surface: u16)
        requires
            old(self).wf(),
        ensures
            final(self).wf(),
            final(self)@ == (GraphicsView {
                surfaces: old(self)@.surfaces.remove(surface),
                ..old(self)@
            }).forgetting(surface),
    {
        let _ = self.surfaces.remove(surface);
        proof { remove_weighs(old(self)@.surfaces, surface_bytes(), surface); }
        assert forall|k: u16| #[trigger] self@.surfaces.contains_key(k) implies self@.surfaces[k].wf() by {
            assert(old(self)@.surfaces.contains_key(k));
        }
        self.forget(surface);
    }

    fn end_frame(&mut self, frame: u32, framebuffer: &mut Framebuffer, updates: &mut Vec<Update>)
        requires
            old(self).wf(),
            old(framebuffer).wf(),
        ensures
            final(self).wf(),
            final(framebuffer).wf(),
            (State { graphics: final(self)@, frame: final(framebuffer)@, updates: final(updates)@ })
                == end_frame_spec(
                State { graphics: old(self)@, frame: old(framebuffer)@, updates: old(updates)@ },
                frame,
            ),
    {
        proof { reveal(end_frame_spec); }
        self.frame = None;
        assert(self@.surfaces == old(self)@.surfaces && self@.caches == old(self)@.caches);
        self.present(framebuffer, updates);
        let ghost shown = self@;
        self.decoded = if self.decoded == u32::MAX { 0 } else { self.decoded + 1 };
        assert(self@.surfaces == shown.surfaces && self@.caches == shown.caches);
        updates.push(Update::Frame { id: frame, decoded: self.decoded });
    }

    /// A PDU that only draws, or does nothing.
    fn draws(&mut self, message: Message<'_>)
        requires
            old(self).wf(),
            gfx::well_formed(message@),
            !(message is CapsConfirm || message is ResetGraphics || message is CreateSurface
                || message is DeleteSurface || message is MapSurfaceToOutput || message is StartFrame
                || message is EndFrame),
        ensures
            final(self).wf(),
            final(self)@ == draws_spec(old(self)@, message@),
    {
        proof { reveal(draws_spec); }
        match message {
            Message::WireToSurface1 { surface, codec, format, rect, data } => {
                self.command(gfx::CMD_WIRE_TO_SURFACE_1);
                self.codec(codec);
                self.draw(surface, codec, format, rect, data);
            },
            Message::WireToSurface2 { surface, codec, context: _, format, data } => {
                self.command(gfx::CMD_WIRE_TO_SURFACE_2);
                self.codec(codec);
                if codec == gfx::CODEC_CAPROGRESSIVE {
                    self.draw_progressive(surface, format, data);
                }
            },
            Message::SolidFill { surface, color, rects } => {
                self.command(gfx::CMD_SOLID_FILL);
                self.solid_fill(surface, color, &rects);
            },
            Message::SurfaceToSurface { src, dst, rect, points } => {
                self.command(gfx::CMD_SURFACE_TO_SURFACE);
                self.surface_to_surface(src, dst, rect, &points);
            },
            Message::SurfaceToCache { surface, key: _, slot, rect } => {
                self.command(gfx::CMD_SURFACE_TO_CACHE);
                self.surface_to_cache(surface, slot, rect);
            },
            Message::CacheToSurface { slot, surface, points } => {
                self.command(gfx::CMD_CACHE_TO_SURFACE);
                self.cache_to_surface(slot, surface, &points);
            },
            Message::EvictCacheEntry { slot } => {
                self.command(gfx::CMD_EVICT_CACHE_ENTRY);
                let _ = self.caches.remove(slot);
                proof { remove_weighs(old(self)@.caches, cache_bytes(), slot); }
                assert forall|k: u16| #[trigger] self@.caches.contains_key(k) implies self@.caches[k].wf() by {
                    assert(old(self)@.caches.contains_key(k));
                }
            },
            Message::DeleteEncodingContext { surface: _, context: _ } => {
                // Nothing to delete: the one codec with a context, Progressive, keeps
                // its state by surface, not by context, and the surface's deletion
                // drops it.
                self.command(gfx::CMD_DELETE_ENCODING_CONTEXT);
            },
            Message::Other { command, length: _ } => {
                self.command(command);
            },
            _ => {},
        }
    }

    /// What one PDU asks for, done.
    pub fn act(&mut self, message: Message<'_>, framebuffer: &mut Framebuffer, updates: &mut Vec<Update>) -> (res:
        Result<(), GraphicsError>)
        requires
            old(self).wf(),
            old(framebuffer).wf(),
            gfx::well_formed(message@),
        ensures
            final(self).wf(),
            final(self)@.wf(),
            final(framebuffer).wf(),
            act_spec(
                State { graphics: old(self)@, frame: old(framebuffer)@, updates: old(updates)@ },
                message@,
            ) == (
                State { graphics: final(self)@, frame: final(framebuffer)@, updates: final(updates)@ },
                res,
            ),
    {
        match message {
            Message::CapsConfirm { version: _, flags: _ } => {
                self.command(gfx::CMD_CAPS_CONFIRM);
                updates.push(Update::Confirmed);
                Ok(())
            },
            Message::ResetGraphics { width, height, monitors: _ } => {
                self.reset(width, height, framebuffer, updates)
            },
            Message::CreateSurface { surface, width, height, format: _ } => {
                self.create(surface, width, height)
            },
            Message::DeleteSurface { surface } => {
                self.command(gfx::CMD_DELETE_SURFACE);
                self.delete(surface);
                Ok(())
            },
            Message::MapSurfaceToOutput { surface, x, y } => {
                self.command(gfx::CMD_MAP_SURFACE_TO_OUTPUT);
                self.map(surface, x, y);
                Ok(())
            },
            Message::StartFrame { timestamp: _, frame } => {
                self.command(gfx::CMD_START_FRAME);
                self.frame = Some(frame);
                assert(self@.surfaces == old(self)@.surfaces && self@.caches == old(self)@.caches);
                Ok(())
            },
            Message::EndFrame { frame } => {
                self.command(gfx::CMD_END_FRAME);
                self.end_frame(frame, framebuffer, updates);
                Ok(())
            },
            other => {
                self.draws(other);
                Ok(())
            },
        }
    }

    /// One buffer of PDUs off the channel: decoded, and acted on. The pixels go into
    /// `framebuffer` here; what comes back is what the caller has to do about them.
    ///
    /// A PDU that does not decode ends the session, as any other malformed PDU
    /// does. A *codec payload* that does not decode does not: it is one rectangle
    /// the server will draw again.
    pub fn receive(&mut self, data: &[u8], framebuffer: &mut Framebuffer) -> (res: Result<
        Vec<Update>,
        GraphicsError,
    >)
        requires
            old(self).wf(),
            old(framebuffer).wf(),
        ensures
            final(self).wf(),
            final(self)@.wf(),
            final(self)@.within_budget(),
            final(framebuffer).wf(),
            ({
                let (end, want) = receive_spec(
                    cursor(gfx::WHAT, data@),
                    State { graphics: old(self)@, frame: old(framebuffer)@, updates: seq![] },
                );
                &&& final(self)@ == end.graphics
                &&& final(framebuffer)@ == end.frame
                &&& match res {
                    Ok(updates) => want is Ok && updates@ == end.updates,
                    Err(e) => want == Err::<(), GraphicsError>(e),
                }
            }),
    {
        let mut all = gfx::messages(data);
        let mut updates: Vec<Update> = Vec::new();
        let ghost start = State { graphics: self@, frame: framebuffer@, updates: seq![] };
        assert(updates@ =~= seq![]);
        loop
            invariant
                self.wf(),
                framebuffer.wf(),
                !all.has_failed(),
                start == (State { graphics: old(self)@, frame: old(framebuffer)@, updates: seq![] }),
                receive_spec(cursor(gfx::WHAT, data@), start) == receive_spec(
                    all.at(),
                    State { graphics: self@, frame: framebuffer@, updates: updates@ },
                ),
            ensures
                receive_spec(cursor(gfx::WHAT, data@), start) == (
                    State { graphics: self@, frame: framebuffer@, updates: updates@ },
                    Ok::<(), GraphicsError>(()),
                ),
            decreases all.at().left(),
        {
            match all.next() {
                None => {
                    break;
                },
                Some(Err(e)) => {
                    return Err(GraphicsError::Malformed(e));
                },
                Some(Ok(message)) => {
                    self.act(message, framebuffer, &mut updates)?;
                },
            }
        }
        Ok(updates)
    }
}

/// Drawing shows only at a frame's end: short of that, and of the output being redefined,
/// no PDU changes the framebuffer or says that anything was painted. Nor does one that is
/// refused.
pub proof fn only_a_frames_end_shows(s: State, message: MessageView)
    requires
        !(message is EndFrame),
        !(message is ResetGraphics) || act_spec(s, message).1 is Err,
    ensures
        act_spec(s, message).0.frame == s.frame,
        act_spec(s, message).0.updates == s.updates || act_spec(s, message).0.updates == s.updates.push(
            Update::Confirmed,
        ),
{
}

/// An output redefined is black, and that it was is all that is said.
pub proof fn a_reset_shows_a_black_output(s: State, message: MessageView)
    requires
        message is ResetGraphics,
        act_spec(s, message).1 is Ok,
    ensures
        ({
            let after = act_spec(s, message).0;
            let (width, height) = (message->ResetGraphics_width, message->ResetGraphics_height);
            &&& after.updates == s.updates.push(Update::Reset { width, height })
            &&& after.graphics.output == Some((width, height))
            &&& after.frame.width == width && after.frame.height == height && after.frame.wf()
            &&& forall|i: int| 0 <= i < after.frame.pixels.len() ==> #[trigger] after.frame.pixels[i] == 0
        }),
{
    let (width, height) = (message->ResetGraphics_width, message->ResetGraphics_height);
    assert(0 <= width * height) by (nonlinear_arith)
        requires
            0 <= width,
            0 <= height,
    ;
}

/// Whether an update is the paint of a rectangle inside the output and the framebuffer.
pub open spec fn paints_inside(update: Update, output: Rect, frame: FrameView) -> bool {
    update matches Update::Paint(r) && r.width > 0 && r.height > 0 && r.right() <= output.right()
        && r.bottom() <= output.bottom() && frame.fits(r)
}

/// Whether a pixel is in a rectangle that the updates from the `from`th on say was painted.
pub open spec fn is_painted(updates: Seq<Update>, from: nat, x: int, y: int) -> bool {
    exists|j: int|
        from <= j < updates.len() && (#[trigger] updates[j] matches Update::Paint(r) && r.holds(x, y))
}

/// Whether all that was shown in between is what was said to be painted: the updates are
/// only added to, by paints inside the output, and no other pixel changed.
pub open spec fn shows(before: Shown, after: Shown, output: Rect) -> bool {
    &&& after.frame.wf()
    &&& after.frame.width == before.frame.width && after.frame.height == before.frame.height
    &&& before.updates.len() <= after.updates.len()
    &&& after.updates.take(before.updates.len() as int) == before.updates
    &&& forall|j: int|
        before.updates.len() <= j < after.updates.len() ==> paints_inside(
            #[trigger] after.updates[j],
            output,
            before.frame,
        )
    &&& forall|x: int, y: int|
        #![trigger pixel_at(after.frame.pixels, before.frame.width as int, x, y)]
        0 <= x < before.frame.width && 0 <= y < before.frame.height && !is_painted(
            after.updates,
            before.updates.len(),
            x,
            y,
        ) ==> pixel_at(after.frame.pixels, before.frame.width as int, x, y) == pixel_at(
            before.frame.pixels,
            before.frame.width as int,
            x,
            y,
        )
}

proof fn showing_nothing(shown: Shown, output: Rect)
    requires
        shown.frame.wf(),
    ensures
        shows(shown, shown, output),
{
    assert(shown.updates.take(shown.updates.len() as int) =~= shown.updates);
}

proof fn showing_goes_on(a: Shown, b: Shown, c: Shown, output: Rect)
    requires
        shows(a, b, output),
        shows(b, c, output),
    ensures
        shows(a, c, output),
{
    assert forall|j: int| 0 <= j < b.updates.len() implies c.updates[j] == b.updates[j] by {
        assert(c.updates.take(b.updates.len() as int)[j] == b.updates[j]);
    }
    assert forall|j: int| 0 <= j < a.updates.len() implies b.updates[j] == a.updates[j] by {
        assert(b.updates.take(a.updates.len() as int)[j] == a.updates[j]);
    }
    assert(c.updates.take(a.updates.len() as int) =~= a.updates);
    let (from, width) = (a.updates.len(), a.frame.width as int);
    assert forall|j: int| from <= j < c.updates.len() implies paints_inside(
        #[trigger] c.updates[j],
        output,
        a.frame,
    ) by {
        if j < b.updates.len() {
            assert(paints_inside(b.updates[j], output, a.frame));
        } else {
            assert(paints_inside(c.updates[j], output, b.frame));
        }
    }
    assert forall|x: int, y: int|
        #![trigger pixel_at(c.frame.pixels, width, x, y)]
        0 <= x < a.frame.width && 0 <= y < a.frame.height && !is_painted(c.updates, from, x, y)
            implies pixel_at(c.frame.pixels, width, x, y) == pixel_at(a.frame.pixels, width, x, y) by {
        if is_painted(c.updates, b.updates.len(), x, y) {
            let j = choose|j: int|
                b.updates.len() <= j < c.updates.len() && (#[trigger] c.updates[j] matches Update::Paint(r)
                    && r.holds(x, y));
            assert(from <= j < c.updates.len());
        }
        if is_painted(b.updates, from, x, y) {
            let j = choose|j: int|
                from <= j < b.updates.len() && (#[trigger] b.updates[j] matches Update::Paint(r)
                    && r.holds(x, y));
            assert(c.updates[j] == b.updates[j]);
        }
        assert(pixel_at(c.frame.pixels, width, x, y) == pixel_at(b.frame.pixels, width, x, y));
        assert(pixel_at(b.frame.pixels, width, x, y) == pixel_at(a.frame.pixels, width, x, y));
    }
}

/// What is inside a surface can be copied out of it whole.
proof fn a_surface_has_its_rows(
    frame: FrameView,
    s: SurfaceView,
    origin: (int, int),
    rect: Rect,
    n: nat,
)
    requires
        frame.wf(),
        s.wf(),
        0 <= origin.0,
        0 <= origin.1,
        origin.0 + rect.width <= s.width,
        origin.1 + rect.height <= s.height,
        n <= rect.height,
    ensures
        copied(frame, s.pixels, 4 * s.width, origin, rect, n).1,
        copied(frame, s.pixels, 4 * s.width, origin, rect, n).0.wf(),
        copied(frame, s.pixels, 4 * s.width, origin, rect, n).0.width == frame.width,
        copied(frame, s.pixels, 4 * s.width, origin, rect, n).0.height == frame.height,
    decreases n,
{
    if n > 0 {
        a_surface_has_its_rows(frame, s, origin, rect, (n - 1) as nat);
        let (width, height, row) = (s.width as int, s.height as int, origin.1 + n - 1);
        row_is_inside(width, height, origin.0, row, rect.width as int);
        assert(row * (4 * width) + origin.0 * 4 == place(width, origin.0, row)) by (nonlinear_arith)
            requires
                place(width, origin.0, row) == 4 * (row * width + origin.0),
        ;
    }
}

proof fn a_rectangle_shows(s: SurfaceView, output: Rect, shown: Shown, rect: Rect)
    requires
        s.wf(),
        shown.frame.wf(),
        output.x == 0 && output.y == 0,
    ensures
        shows(shown, present_rect(s, output, shown, rect), output),
{
    showing_nothing(shown, output);
    let after = present_rect(s, output, shown, rect);
    if let (Some((ox, oy)), Some(r)) = (s.mapped, rect.spec_clipped(s.bounds())) {
        let moved = Rect {
            x: crate::framebuffer::saturated(ox, r.x) as u32,
            y: crate::framebuffer::saturated(oy, r.y) as u32,
            width: r.width,
            height: r.height,
        };
        if let Some(placed) = moved.spec_clipped(output) {
            let origin = (placed.x - ox, placed.y - oy);
            if shown.frame.fits(placed) {
                let (frame, width) = (shown.frame, shown.frame.width as int);
                a_surface_has_its_rows(frame, s, origin, placed, placed.height as nat);
                assert(after.updates == shown.updates.push(Update::Paint(placed)));
                assert(after.updates.take(shown.updates.len() as int) =~= shown.updates);
                assert forall|x: int, y: int|
                    #![trigger pixel_at(after.frame.pixels, width, x, y)]
                    0 <= x < frame.width && 0 <= y < frame.height && !is_painted(
                        after.updates,
                        shown.updates.len(),
                        x,
                        y,
                    ) implies pixel_at(after.frame.pixels, width, x, y) == pixel_at(
                    frame.pixels,
                    width,
                    x,
                    y,
                ) by {
                    assert(after.updates[shown.updates.len() as int] == Update::Paint(placed));
                    assert(!placed.holds(x, y));
                    a_blit_lands_where_its_rectangle_says(frame, s.pixels, s.width as int, origin, placed, x, y);
                }
            }
        }
    }
}

proof fn a_surface_shows(s: SurfaceView, output: Rect, shown: Shown, n: nat)
    requires
        s.wf(),
        shown.frame.wf(),
        output.x == 0 && output.y == 0,
    ensures
        shows(shown, present_surface(s, output, shown, n), output),
    decreases n,
{
    if n == 0 {
        showing_nothing(shown, output);
    } else {
        a_surface_shows(s, output, shown, (n - 1) as nat);
        let before = present_surface(s, output, shown, (n - 1) as nat);
        a_rectangle_shows(s, output, before, s.invalid[n - 1]);
        showing_goes_on(shown, before, present_surface(s, output, shown, n), output);
    }
}

proof fn surfaces_show(all: Map<u16, SurfaceView>, output: Rect, shown: Shown, n: nat)
    requires
        forall|k: u16| #[trigger] all.contains_key(k) ==> all[k].wf(),
        shown.frame.wf(),
        output.x == 0 && output.y == 0,
        n <= 0x1_0000,
    ensures
        shows(shown, fold_below(all, presenting(output), shown, n), output),
    decreases n,
{
    if n == 0 {
        showing_nothing(shown, output);
    } else {
        surfaces_show(all, output, shown, (n - 1) as nat);
        let number = (n - 1) as u16;
        if all.contains_key(number) {
            let before = fold_below(all, presenting(output), shown, (n - 1) as nat);
            a_surface_shows(all[number], output, before, all[number].invalid.len());
            showing_goes_on(
                shown,
                before,
                present_surface(all[number], output, before, all[number].invalid.len()),
                output,
            );
        }
    }
}

/// A frame's end is never refused. It adds to what the session is told some paints, each
/// inside the output, and none before there is one, and then the frame, with how many have
/// been ended; and the framebuffer keeps its size and changes only inside those paints.
pub proof fn a_frames_end_changes_only_what_it_paints(s: State, frame: u32)
    requires
        s.graphics.wf(),
        s.frame.wf(),
    ensures
        ({
            let (after, res) = act_spec(s, MessageView::EndFrame { frame });
            let told = Shown { frame: after.frame, updates: after.updates.drop_last() };
            let start = Shown { frame: s.frame, updates: s.updates };
            let decoded = after.graphics.decoded;
            &&& res is Ok
            &&& after.updates.len() > s.updates.len()
            &&& after.updates.last() == (Update::Frame { id: frame, decoded })
            &&& decoded == (s.graphics.decoded + 1) % 0x1_0000_0000
            &&& match s.graphics.output {
                Some((width, height)) => shows(start, told, Rect { x: 0, y: 0, width, height }),
                None => told == start,
            }
        }),
{
    reveal(end_frame_spec);
    let after = act_spec(s, MessageView::EndFrame { frame }).0;
    let start = Shown { frame: s.frame, updates: s.updates };
    match s.graphics.output {
        Some((width, height)) => {
            let output = Rect { x: 0, y: 0, width, height };
            surfaces_show(s.graphics.surfaces, output, start, 0x1_0000);
            let shown = fold(s.graphics.surfaces, presenting(output), start);
            assert(after.updates.drop_last() =~= shown.updates);
        },
        None => {
            assert(after.updates.drop_last() =~= s.updates);
        },
    }
}

/// PDUs acted on in turn, up to one that is refused.
pub open spec fn acted(s: State, messages: Seq<MessageView>) -> (State, Result<(), GraphicsError>)
    decreases messages.len(),
{
    if messages.len() == 0 {
        (s, Ok(()))
    } else {
        let (before, res) = acted(s, messages.drop_last());
        match res {
            Err(e) => (before, Err(e)),
            Ok(_) => act_spec(before, messages.last()),
        }
    }
}

proof fn acting_on_the_first(s: State, first: MessageView, rest: Seq<MessageView>)
    ensures
        acted(s, seq![first] + rest) == (match act_spec(s, first) {
            (after, Err(e)) => (after, Err(e)),
            (after, Ok(_)) => acted(after, rest),
        }),
    decreases rest.len(),
{
    let all = seq![first] + rest;
    if rest.len() == 0 {
        assert(all.drop_last() =~= seq![]);
        assert(acted(s, all.drop_last()) == (s, Ok::<(), GraphicsError>(())));
    } else {
        acting_on_the_first(s, first, rest.drop_last());
        assert(all.drop_last() =~= seq![first] + rest.drop_last());
    }
}

/// A buffer is its PDUs acted on in turn: up to one that is refused, or one that does not
/// decode, whose fault comes out once all before it have been acted on.
pub proof fn a_buffer_is_acted_on_in_turn(c: Cursor, s: State)
    ensures
        receive_spec(c, s) == (match acted(s, gfx::messages_from(c).0) {
            (after, Err(e)) => (after, Err(e)),
            (after, Ok(_)) => (
                after,
                match gfx::messages_from(c).1 {
                    Some(e) => Err(GraphicsError::Malformed(e)),
                    None => Ok(()),
                },
            ),
        }),
    decreases c.left(),
{
    if c.left() != 0 {
        match gfx::pdu_step(c) {
            Step::Stop(_) => {},
            Step::Got(message, next) => {
                let after = act_spec(s, message).0;
                if 0 <= next.left() < c.left() {
                    acting_on_the_first(s, message, gfx::messages_from(next).0);
                    a_buffer_is_acted_on_in_turn(next, after);
                } else {
                    acting_on_the_first(s, message, seq![]);
                    assert(seq![message] + seq![] =~= seq![message]);
                }
            },
        }
    }
}

/// How many of these PDUs end a frame.
pub open spec fn frames_ended(messages: Seq<MessageView>) -> nat
    decreases messages.len(),
{
    if messages.len() == 0 {
        0
    } else {
        frames_ended(messages.drop_last()) + if messages.last() is EndFrame { 1nat } else { 0 }
    }
}

/// The count a frame is reported with is that of the frames ended so far, round 32 bits.
pub proof fn every_frames_end_is_counted(s: State, messages: Seq<MessageView>)
    requires
        acted(s, messages).1 is Ok,
    ensures
        acted(s, messages).0.graphics.decoded == (s.graphics.decoded + frames_ended(messages))
            % 0x1_0000_0000,
    decreases messages.len(),
{
    if messages.len() > 0 {
        let before = acted(s, messages.drop_last()).0;
        every_frames_end_is_counted(s, messages.drop_last());
        reveal(end_frame_spec);
        drawing_ends_no_frame(before.graphics, messages.last());
    }
}

proof fn drawing_ends_no_frame(g: GraphicsView, message: MessageView)
    ensures
        draws_spec(g, message).decoded == g.decoded,
{
    reveal(draws_spec);
}

/// What the session was told is only ever added to.
pub proof fn what_was_told_stays_told(s: State, message: MessageView)
    requires
        s.graphics.wf(),
        s.frame.wf(),
    ensures
        ({
            let after = act_spec(s, message).0;
            &&& s.updates.len() <= after.updates.len()
            &&& after.updates.take(s.updates.len() as int) == s.updates
        }),
{
    let after = act_spec(s, message).0;
    if message is EndFrame {
        a_frames_end_changes_only_what_it_paints(s, message->EndFrame_frame);
        assert(after.updates.take(s.updates.len() as int) =~= after.updates.drop_last().take(
            s.updates.len() as int,
        ));
    }
    assert(after.updates.take(s.updates.len() as int) =~= s.updates);
}

/// Whether an update says that something was shown.
pub open spec fn tells_of_a_picture(update: Update) -> bool {
    update is Paint || update is Frame
}

/// What one PDU does, whichever it is, after any others. What the session was told is only
/// added to. A frame's end is never refused: it adds paints inside the output and then the
/// frame, with how many have been ended so far, round 32 bits, and changes the framebuffer
/// only inside those paints. An output that is redefined is black, and nothing else is said.
/// Any other PDU, and any that is refused, leaves the framebuffer and tells of no picture.
pub proof fn what_one_pdu_shows(start: State, before: Seq<MessageView>, message: MessageView)
    requires
        start.graphics.decoded == 0,
        acted(start, before).1 is Ok,
        acted(start, before).0.graphics.wf(),
        acted(start, before).0.frame.wf(),
    ensures
        ({
            let s = acted(start, before).0;
            let (after, res) = act_spec(s, message);
            let told = after.updates.skip(s.updates.len() as int);
            &&& s.updates.len() <= after.updates.len() && after.updates.take(s.updates.len() as int)
                == s.updates
            &&& match (message, res) {
                (MessageView::EndFrame { frame }, _) => {
                    let shown = Shown { frame: after.frame, updates: after.updates.drop_last() };
                    &&& res is Ok
                    &&& told.len() > 0 && told.last() == (Update::Frame {
                        id: frame,
                        decoded: (frames_ended(before.push(message)) % 0x1_0000_0000) as u32,
                    })
                    &&& match s.graphics.output {
                        Some((width, height)) => shows(
                            Shown { frame: s.frame, updates: s.updates },
                            shown,
                            Rect { x: 0, y: 0, width, height },
                        ),
                        None => shown.frame == s.frame && told.len() == 1,
                    }
                },
                (MessageView::ResetGraphics { width, height, .. }, Ok(_)) => {
                    &&& told == seq![Update::Reset { width, height }]
                    &&& after.frame.width == width && after.frame.height == height && after.frame.wf()
                    &&& forall|i: int|
                        0 <= i < after.frame.pixels.len() ==> #[trigger] after.frame.pixels[i] == 0
                },
                _ => {
                    &&& after.frame == s.frame
                    &&& forall|j: int| 0 <= j < told.len() ==> !tells_of_a_picture(#[trigger] told[j])
                },
            }
        }),
{
    let s = acted(start, before).0;
    let after = act_spec(s, message).0;
    let told = after.updates.skip(s.updates.len() as int);
    what_was_told_stays_told(s, message);
    if message is EndFrame {
        a_frames_end_changes_only_what_it_paints(s, message->EndFrame_frame);
        assert(before.push(message).drop_last() =~= before);
        every_frames_end_is_counted(start, before);
        assert(told.last() == after.updates.last());
        if s.graphics.output is None {
            assert(after.updates.drop_last() == s.updates);
        }
    } else if message is ResetGraphics && act_spec(s, message).1 is Ok {
        a_reset_shows_a_black_output(s, message);
        assert(told =~= seq![after.updates.last()]);
    } else {
        only_a_frames_end_shows(s, message);
        assert forall|j: int| 0 <= j < told.len() implies !tells_of_a_picture(#[trigger] told[j]) by {
            assert(told[j] == after.updates[s.updates.len() + j]);
        }
    }
}

/// The framebuffer is as large as the output, once there is one.
pub open spec fn is_matched(s: State) -> bool {
    match s.graphics.output {
        Some((width, height)) => s.frame.width == width && s.frame.height == height,
        None => true,
    }
}

/// A framebuffer that is as large as the output stays so, whatever PDU comes.
pub proof fn the_framebuffer_stays_as_large_as_the_output(s: State, message: MessageView)
    requires
        s.graphics.wf(),
        s.frame.wf(),
        is_matched(s),
    ensures
        is_matched(act_spec(s, message).0),
{
    if message is EndFrame {
        a_frames_end_changes_only_what_it_paints(s, message->EndFrame_frame);
        reveal(end_frame_spec);
    } else {
        reveal(draws_spec);
    }
}

/// Packed rows stamped down show in the rectangle, and nothing else changes.
pub proof fn a_stamp_lands_where_its_rectangle_says(width: u32, height: u32, pixels: Seq<u8>, rect: Rect, packed: Seq<u8>, n: nat, x: int, y: int)
    requires
        pixels.len() == 4 * (width * height),
        rect.right() <= width,
        rect.bottom() <= height,
        n <= rect.height,
        packed.len() == 4 * (rect.width * rect.height),
        0 <= x < width,
        0 <= y < height,
    ensures
        stamped(width, pixels, rect, packed, n).len() == pixels.len(),
        pixel_at(stamped(width, pixels, rect, packed, n), width as int, x, y) == (if rect.holds(x, y) && y
            < rect.y + n {
            pixel_at(packed, rect.width as int, x - rect.x, y - rect.y)
        } else {
            pixel_at(pixels, width as int, x, y)
        }),
    decreases n,
{
    if n > 0 {
        a_stamp_lands_where_its_rectangle_says(width, height, pixels, rect, packed, (n - 1) as nat, x, y);
        let before = stamped(width, pixels, rect, packed, (n - 1) as nat);
        let after = stamped(width, pixels, rect, packed, n);
        let row = rect.y + n - 1;
        row_is_inside(width as int, height as int, rect.x as int, row, rect.width as int);
        row_is_inside(width as int, height as int, x, y, 1);
        assert(0 <= (n - 1) * rect.width && (n - 1) * rect.width + rect.width <= rect.width * rect.height)
            by (nonlinear_arith)
            requires
                0 < n <= rect.height,
                0 <= rect.width,
        ;
        if rect.holds(x, y) && y == row {
            assert(pixel_at(after, width as int, x, y) =~= pixel_at(packed, rect.width as int, x - rect.x, y - rect.y));
        } else {
            pixels_are_apart(width as int, rect.x as int, row, rect.width as int, x, y);
            assert(pixel_at(after, width as int, x, y) =~= pixel_at(before, width as int, x, y));
        }
    }
}

/// A fill is one colour in its rectangle, and nothing else changes.
pub proof fn a_fill_is_flat_in_its_rectangle(width: u32, height: u32, pixels: Seq<u8>, rect: Rect, rgb: Seq<u8>, n: nat, x: int, y: int)
    requires
        pixels.len() == 4 * (width * height),
        rect.right() <= width,
        rect.bottom() <= height,
        n <= rect.height,
        rgb.len() == 3,
        0 <= x < width,
        0 <= y < height,
    ensures
        filled(width, pixels, rect, rgb, n).len() == pixels.len(),
        pixel_at(filled(width, pixels, rect, rgb, n), width as int, x, y) == (if rect.holds(x, y) && y
            < rect.y + n {
            seq![rgb[0], rgb[1], rgb[2], 0u8]
        } else {
            pixel_at(pixels, width as int, x, y)
        }),
    decreases n,
{
    if n > 0 {
        a_fill_is_flat_in_its_rectangle(width, height, pixels, rect, rgb, (n - 1) as nat, x, y);
        let before = filled(width, pixels, rect, rgb, (n - 1) as nat);
        let after = filled(width, pixels, rect, rgb, n);
        let row = rect.y + n - 1;
        row_is_inside(width as int, height as int, rect.x as int, row, rect.width as int);
        row_is_inside(width as int, height as int, x, y, 1);
        if rect.holds(x, y) && y == row {
            assert(pixel_at(after, width as int, x, y) =~= seq![rgb[0], rgb[1], rgb[2], 0u8]);
        } else {
            pixels_are_apart(width as int, rect.x as int, row, rect.width as int, x, y);
            assert(pixel_at(after, width as int, x, y) =~= pixel_at(before, width as int, x, y));
        }
    }
}

/// Pixels drawn show in the rectangle, red first, and nothing else changes.
pub proof fn a_draw_lands_where_its_rectangle_says(width: u32, height: u32, pixels: Seq<u8>, rect: Rect, bgrx: Seq<u8>, n: nat, x: int, y: int)
    requires
        pixels.len() == 4 * (width * height),
        rect.right() <= width,
        rect.bottom() <= height,
        n <= rect.height,
        bgrx.len() == 4 * (rect.width * rect.height),
        0 <= x < width,
        0 <= y < height,
    ensures
        written(width, pixels, rect, bgrx, n).len() == pixels.len(),
        pixel_at(written(width, pixels, rect, bgrx, n), width as int, x, y) == (if rect.holds(x, y) && y
            < rect.y + n {
            swizzled(bgrx, place(rect.width as int, x - rect.x, y - rect.y), 1)
        } else {
            pixel_at(pixels, width as int, x, y)
        }),
    decreases n,
{
    if n > 0 {
        a_draw_lands_where_its_rectangle_says(width, height, pixels, rect, bgrx, (n - 1) as nat, x, y);
        let before = written(width, pixels, rect, bgrx, (n - 1) as nat);
        let after = written(width, pixels, rect, bgrx, n);
        let row = rect.y + n - 1;
        row_is_inside(width as int, height as int, rect.x as int, row, rect.width as int);
        row_is_inside(width as int, height as int, x, y, 1);
        assert(0 <= (n - 1) * rect.width && (n - 1) * rect.width + rect.width <= rect.width * rect.height)
            by (nonlinear_arith)
            requires
                0 < n <= rect.height,
                0 <= rect.width,
        ;
        if rect.holds(x, y) && y == row {
            assert(pixel_at(after, width as int, x, y) =~= swizzled(bgrx, place(rect.width as int, x - rect.x, y - rect.y), 1));
        } else {
            pixels_are_apart(width as int, rect.x as int, row, rect.width as int, x, y);
            assert(pixel_at(after, width as int, x, y) =~= pixel_at(before, width as int, x, y));
        }
    }
}

/// What is lifted off a surface is what the rectangle showed.
pub proof fn what_is_lifted_is_what_was_there(
    width: u32,
    height: u32,
    pixels: Seq<u8>,
    rect: Rect,
    n: nat,
    x: int,
    y: int,
)
    requires
        pixels.len() == 4 * (width * height),
        rect.right() <= width,
        rect.bottom() <= height,
        n <= rect.height,
        0 <= x < rect.width,
        0 <= y < n,
    ensures
        lifted(width, pixels, rect, n).len() == 4 * (n * rect.width),
        pixel_at(lifted(width, pixels, rect, n), rect.width as int, x, y) == pixel_at(
            pixels,
            width as int,
            rect.x + x,
            rect.y + y,
        ),
    decreases n,
{
    lifted_is_whole(width, height, pixels, rect, (n - 1) as nat);
    let before = lifted(width, pixels, rect, (n - 1) as nat);
    let after = lifted(width, pixels, rect, n);
    assert(n * rect.width == (n - 1) * rect.width + rect.width) by (nonlinear_arith);
    row_is_inside(width as int, height as int, rect.x as int, rect.y + n - 1, rect.width as int);
    row_is_inside(rect.width as int, n as int, x, y, 1);
    assert(rect.width * n == n * rect.width) by (nonlinear_arith);
    if y < n - 1 {
        what_is_lifted_is_what_was_there(width, height, pixels, rect, (n - 1) as nat, x, y);
        row_is_inside(rect.width as int, n - 1, x, y, 1);
        assert(rect.width * (n - 1) == (n - 1) * rect.width) by (nonlinear_arith);
        assert(pixel_at(after, rect.width as int, x, y) =~= pixel_at(before, rect.width as int, x, y));
    } else {
        assert(pixel_at(after, rect.width as int, x, y) =~= pixel_at(
            pixels,
            width as int,
            rect.x + x,
            rect.y + y,
        ));
    }
}

proof fn lifted_is_whole(width: u32, height: u32, pixels: Seq<u8>, rect: Rect, n: nat)
    requires
        pixels.len() == 4 * (width * height),
        rect.right() <= width,
        rect.bottom() <= height,
        n <= rect.height,
    ensures
        lifted(width, pixels, rect, n).len() == 4 * (n * rect.width),
    decreases n,
{
    if n > 0 {
        lifted_is_whole(width, height, pixels, rect, (n - 1) as nat);
        row_is_inside(width as int, height as int, rect.x as int, rect.y + n - 1, rect.width as int);
        assert(n * rect.width == (n - 1) * rect.width + rect.width) by (nonlinear_arith);
    } else {
        assert(n * rect.width == 0) by (nonlinear_arith)
            requires
                n == 0,
        ;
    }
}

/// A draw touches the surface it names and no other, whatever its codec makes of its
/// payload.
pub proof fn a_draw_touches_one_surface(
    g: GraphicsView,
    surface: u16,
    codec: u16,
    format: u8,
    rect: Rect,
    data: Seq<u8>,
    other: u16,
)
    requires
        other != surface,
        g.surfaces.contains_key(other),
    ensures
        ({
            let drawn = draw_spec(g, surface, codec, format, rect, data);
            &&& drawn.surfaces.contains_key(other)
            &&& drawn.surfaces[other] == g.surfaces[other]
        }),
        ({
            let drawn = draw_progressive_spec(g, surface, format, data);
            &&& drawn.surfaces.contains_key(other)
            &&& drawn.surfaces[other] == g.surfaces[other]
        }),
{
}

/// A payload that is not there whole, or that the planar codec refuses, leaves everything
/// as it was: it costs its rectangle and not the session.
pub proof fn a_refused_payload_leaves_the_surface(
    g: GraphicsView,
    surface: u16,
    codec: u16,
    format: u8,
    rect: Rect,
    data: Seq<u8>,
)
    requires
        (codec == gfx::CODEC_UNCOMPRESSED && data.len() < 4 * (rect.width * rect.height)) || (codec
            == gfx::CODEC_PLANAR && planar::decompress_spec(data, rect.width as nat, rect.height as nat) is Err)
            || (codec != gfx::CODEC_UNCOMPRESSED && codec != gfx::CODEC_PLANAR && codec != gfx::CODEC_CLEARCODEC),
    ensures
        draw_spec(g, surface, codec, format, rect, data) == g,
{
}

/// The pixel a surface shows at (`x`, `y`): four bytes, the rows one after another.
pub open spec fn shown_at(s: SurfaceView, x: int, y: int) -> Seq<u8> {
    s.pixels.subrange(4 * (y * s.width + x), 4 * (y * s.width + x) + 4)
}

/// Whether a pixel is inside a rectangle given by its edges.
pub open spec fn within(rect: Rect16, x: int, y: int) -> bool {
    rect.left <= x < rect.right && rect.top <= y < rect.bottom
}

proof fn fills_land(s: SurfaceView, rgb: Seq<u8>, rects: Seq<Rect16>, n: nat, x: int, y: int)
    requires
        s.wf(),
        rgb.len() == 3,
        n <= rects.len(),
        forall|i: int| 0 <= i < rects.len() ==> (#[trigger] rects[i]).ordered(),
        0 <= x < s.width,
        0 <= y < s.height,
    ensures
        ({
            let after = fills(s, rgb, rects, n);
            &&& after.width == s.width && after.height == s.height && after.mapped == s.mapped
            &&& after.pixels.len() == s.pixels.len()
            &&& shown_at(after, x, y) == if exists|i: int| 0 <= i < n && within(#[trigger] rects[i], x, y) {
                seq![rgb[0], rgb[1], rgb[2], 0u8]
            } else {
                shown_at(s, x, y)
            }
        }),
    decreases n,
{
    if n > 0 {
        let m = (n - 1) as nat;
        fills_land(s, rgb, rects, m, x, y);
        let before = fills(s, rgb, rects, m);
        let rect = rect_of(rects[n - 1]);
        assert(rects[n - 1].ordered());
        clipping_keeps_the_shared_pixels(rect, s.bounds());
        assert(rect.holds(x, y) == within(rects[n - 1], x, y));
        assert(s.bounds().holds(x, y));
        if let Some(r) = rect.spec_clipped(s.bounds()) {
            assert(r.holds(x, y) == rect.holds(x, y));
            a_fill_is_flat_in_its_rectangle(s.width, s.height, before.pixels, r, rgb, r.height as nat, x, y);
        }
        if within(rects[n - 1], x, y) {
            assert(exists|i: int| 0 <= i < n && within(#[trigger] rects[i], x, y));
        } else if exists|i: int| 0 <= i < m && within(#[trigger] rects[i], x, y) {
            let i = choose|i: int| 0 <= i < m && within(#[trigger] rects[i], x, y);
            assert(0 <= i < n && within(rects[i], x, y));
        }
    }
}

/// A fill shows its colour, which is sent blue first, wherever one of its rectangles is, and
/// leaves every other pixel.
pub proof fn a_solid_fill_is_its_colour(s: State, surface: u16, color: Seq<u8>, rects: Seq<Rect16>, x: int, y: int)
    requires
        s.graphics.wf(),
        s.graphics.surfaces.contains_key(surface),
        color.len() == 4,
        forall|i: int| 0 <= i < rects.len() ==> (#[trigger] rects[i]).ordered(),
        0 <= x < s.graphics.surfaces[surface].width,
        0 <= y < s.graphics.surfaces[surface].height,
    ensures
        ({
            let (after, res) = act_spec(s, MessageView::SolidFill { surface, color, rects });
            &&& res is Ok
            &&& shown_at(after.graphics.surfaces[surface], x, y) == if exists|i: int|
                0 <= i < rects.len() && within(#[trigger] rects[i], x, y) {
                seq![color[2], color[1], color[0], 0u8]
            } else {
                shown_at(s.graphics.surfaces[surface], x, y)
            }
        }),
{
    reveal(draws_spec);
    let rgb = seq![color[2], color[1], color[0]];
    fills_land(s.graphics.surfaces[surface], rgb, rects, rects.len(), x, y);
}

/// Pixels that come as they are, blue first and packed in their rectangle, show in it, red
/// first, and leave every other pixel.
pub proof fn a_plain_draw_shows_its_pixels(s: State, surface: u16, format: u8, rect: Rect16, data: Seq<u8>, x: int, y: int)
    requires
        s.graphics.wf(),
        s.graphics.surfaces.contains_key(surface),
        format == 0x20 || format == 0x21,
        rect.left < rect.right <= s.graphics.surfaces[surface].width,
        rect.top < rect.bottom <= s.graphics.surfaces[surface].height,
        data.len() >= 4 * ((rect.right - rect.left) * (rect.bottom - rect.top)),
        0 <= x < s.graphics.surfaces[surface].width,
        0 <= y < s.graphics.surfaces[surface].height,
    ensures
        ({
            let (after, res) = act_spec(
                s,
                MessageView::WireToSurface1 { surface, codec: 0, format, rect, data },
            );
            let from = 4 * ((y - rect.top) * (rect.right - rect.left) + x - rect.left);
            &&& res is Ok
            &&& shown_at(after.graphics.surfaces[surface], x, y) == if within(rect, x, y) {
                seq![data[from + 2], data[from + 1], data[from], 0u8]
            } else {
                shown_at(s.graphics.surfaces[surface], x, y)
            }
        }),
{
    reveal(draws_spec);
    let r = rect_of(rect);
    let need = 4 * (r.width * r.height);
    assert(0 <= r.width * r.height) by (nonlinear_arith)
        requires
            0 <= r.width,
            0 <= r.height,
    ;
    let was = s.graphics.surfaces[surface];
    let bgrx = data.take(need);
    a_draw_lands_where_its_rectangle_says(was.width, was.height, was.pixels, r, bgrx, r.height as nat, x, y);
    if within(rect, x, y) {
        row_is_inside(r.width as int, r.height as int, x - r.x, y - r.y, 1);
        let from = place(r.width as int, x - r.x, y - r.y);
        assert(swizzled(bgrx, from, 1) =~= seq![data[from + 2], data[from + 1], data[from], 0u8]);
    }
}

/// Whether a packed rectangle stamped down at a point lands inside a surface and on a pixel.
pub open spec fn stamps_on(s: SurfaceView, width: u32, height: u32, at: Point16, x: int, y: int) -> bool {
    &&& at.x + width <= s.width && at.y + height <= s.height
    &&& at.x <= x < at.x + width && at.y <= y < at.y + height
}

proof fn stamps_land(
    s: SurfaceView,
    width: u32,
    height: u32,
    packed: Seq<u8>,
    points: Seq<Point16>,
    n: nat,
    last: int,
    x: int,
    y: int,
)
    requires
        s.wf(),
        packed.len() == 4 * (width * height),
        n <= points.len(),
        -1 <= last < n,
        last >= 0 ==> stamps_on(s, width, height, points[last], x, y),
        forall|i: int| last < i < n ==> !stamps_on(s, width, height, #[trigger] points[i], x, y),
        0 <= x < s.width,
        0 <= y < s.height,
    ensures
        ({
            let after = stamps(s, width, height, packed, points, n);
            &&& after.width == s.width && after.height == s.height && after.mapped == s.mapped
            &&& after.pixels.len() == s.pixels.len()
            &&& shown_at(after, x, y) == if last < 0 {
                shown_at(s, x, y)
            } else {
                pixel_at(packed, width as int, x - points[last].x, y - points[last].y)
            }
        }),
    decreases n,
{
    if n > 0 {
        let m = (n - 1) as nat;
        if last == n - 1 {
            stamps_keep_the_size(s, width, height, packed, points, m);
        } else {
            stamps_land(s, width, height, packed, points, m, last, x, y);
        }
        let before = stamps(s, width, height, packed, points, m);
        let rect = Rect { x: points[n - 1].x as u32, y: points[n - 1].y as u32, width, height };
        assert(stamps_on(s, width, height, points[n - 1], x, y) == (last == n - 1));
        if before.contains(rect) {
            a_stamp_lands_where_its_rectangle_says(
                s.width,
                s.height,
                before.pixels,
                rect,
                packed,
                height as nat,
                x,
                y,
            );
        }
    }
}

proof fn stamps_keep_the_size(s: SurfaceView, width: u32, height: u32, packed: Seq<u8>, points: Seq<Point16>, n: nat)
    ensures
        ({
            let after = stamps(s, width, height, packed, points, n);
            &&& after.width == s.width && after.height == s.height && after.mapped == s.mapped
            &&& after.pixels.len() == s.pixels.len()
        }),
    decreases n,
{
    if n > 0 {
        stamps_keep_the_size(s, width, height, packed, points, (n - 1) as nat);
        let before = stamps(s, width, height, packed, points, (n - 1) as nat);
        let rect = Rect { x: points[n - 1].x as u32, y: points[n - 1].y as u32, width, height };
        stamping_keeps_the_size(s.width, before.pixels, rect, packed, height as nat);
    }
}

proof fn stamping_keeps_the_size(width: u32, pixels: Seq<u8>, rect: Rect, packed: Seq<u8>, n: nat)
    ensures
        stamped(width, pixels, rect, packed, n).len() == pixels.len(),
    decreases n,
{
    if n > 0 {
        stamping_keeps_the_size(width, pixels, rect, packed, (n - 1) as nat);
    }
}

/// A rectangle copied to points shows there what it showed before any of it was copied, the
/// last point over the others; and every other pixel stays.
pub proof fn a_copy_shows_what_was_there(
    s: State,
    src: u16,
    dst: u16,
    rect: Rect16,
    points: Seq<Point16>,
    last: int,
    x: int,
    y: int,
)
    requires
        s.graphics.wf(),
        s.graphics.surfaces.contains_key(src),
        s.graphics.surfaces.contains_key(dst),
        rect.left < rect.right <= s.graphics.surfaces[src].width,
        rect.top < rect.bottom <= s.graphics.surfaces[src].height,
        0 <= x < s.graphics.surfaces[dst].width,
        0 <= y < s.graphics.surfaces[dst].height,
        -1 <= last < points.len(),
        ({
            let (to, w, h) = (
                s.graphics.surfaces[dst],
                (rect.right - rect.left) as u32,
                (rect.bottom - rect.top) as u32,
            );
            &&& last >= 0 ==> stamps_on(to, w, h, points[last], x, y)
            &&& forall|i: int| last < i < points.len() ==> !stamps_on(to, w, h, #[trigger] points[i], x, y)
        }),
    ensures
        ({
            let (after, res) = act_spec(s, MessageView::SurfaceToSurface { src, dst, rect, points });
            &&& res is Ok
            &&& shown_at(after.graphics.surfaces[dst], x, y) == if last < 0 {
                shown_at(s.graphics.surfaces[dst], x, y)
            } else {
                shown_at(
                    s.graphics.surfaces[src],
                    rect.left + x - points[last].x,
                    rect.top + y - points[last].y,
                )
            }
        }),
{
    reveal(draws_spec);
    let r = rect_of(rect);
    let from = s.graphics.surfaces[src];
    let packed = from.copy_out_spec(r);
    lifted_is_whole(from.width, from.height, from.pixels, r, r.height as nat);
    assert(r.height * r.width == r.width * r.height) by (nonlinear_arith);
    stamps_land(s.graphics.surfaces[dst], r.width, r.height, packed, points, points.len(), last, x, y);
    if last >= 0 {
        what_is_lifted_is_what_was_there(
            from.width,
            from.height,
            from.pixels,
            r,
            r.height as nat,
            x - points[last].x,
            y - points[last].y,
        );
    }
}

/// A rectangle kept in a slot is what it showed, and no other slot changes. The slots hold
/// 64 MiB together: one that would take them past it is left empty.
pub proof fn a_slot_keeps_what_was_shown(s: State, surface: u16, key: u64, slot: u16, rect: Rect16, other: u16, x: int, y: int)
    requires
        s.graphics.wf(),
        s.graphics.surfaces.contains_key(surface),
        rect.left < rect.right <= s.graphics.surfaces[surface].width,
        rect.top < rect.bottom <= s.graphics.surfaces[surface].height,
        0 <= x < rect.right - rect.left,
        0 <= y < rect.bottom - rect.top,
        other != slot,
    ensures
        ({
            let (after, res) = act_spec(s, MessageView::SurfaceToCache { surface, key, slot, rect });
            let (w, h) = (rect.right - rect.left, rect.bottom - rect.top);
            let (was, now) = (s.graphics.caches, after.graphics.caches);
            &&& res is Ok
            &&& after.graphics.surfaces == s.graphics.surfaces
            &&& now.contains_key(other) == was.contains_key(other)
            &&& was.contains_key(other) ==> now[other] == was[other]
            &&& if weight(was, cache_bytes_unless(slot)) + 4 * (w * h) > 67_108_864 {
                !now.contains_key(slot)
            } else {
                &&& now.contains_key(slot)
                &&& now[slot].width == w && now[slot].height == h
                &&& now[slot].pixels.subrange(4 * (y * w + x), 4 * (y * w + x) + 4) == shown_at(
                    s.graphics.surfaces[surface],
                    rect.left + x,
                    rect.top + y,
                )
            }
        }),
{
    reveal(draws_spec);
    let r = rect_of(rect);
    let from = s.graphics.surfaces[surface];
    what_is_lifted_is_what_was_there(from.width, from.height, from.pixels, r, r.height as nat, x, y);
}

/// A slot stamped down at points shows there what it holds, the last point over the others;
/// and every other pixel stays.
pub proof fn a_slot_shows_what_it_keeps(
    s: State,
    slot: u16,
    surface: u16,
    points: Seq<Point16>,
    last: int,
    x: int,
    y: int,
)
    requires
        s.graphics.wf(),
        s.graphics.caches.contains_key(slot),
        s.graphics.surfaces.contains_key(surface),
        0 <= x < s.graphics.surfaces[surface].width,
        0 <= y < s.graphics.surfaces[surface].height,
        -1 <= last < points.len(),
        ({
            let (to, c) = (s.graphics.surfaces[surface], s.graphics.caches[slot]);
            &&& last >= 0 ==> stamps_on(to, c.width, c.height, points[last], x, y)
            &&& forall|i: int|
                last < i < points.len() ==> !stamps_on(to, c.width, c.height, #[trigger] points[i], x, y)
        }),
    ensures
        ({
            let (after, res) = act_spec(s, MessageView::CacheToSurface { slot, surface, points });
            let c = s.graphics.caches[slot];
            &&& res is Ok
            &&& after.graphics.caches == s.graphics.caches
            &&& shown_at(after.graphics.surfaces[surface], x, y) == if last < 0 {
                shown_at(s.graphics.surfaces[surface], x, y)
            } else {
                let from = 4 * ((y - points[last].y) * c.width + x - points[last].x);
                c.pixels.subrange(from, from + 4)
            }
        }),
{
    reveal(draws_spec);
    let c = s.graphics.caches[slot];
    stamps_land(s.graphics.surfaces[surface], c.width, c.height, c.pixels, points, points.len(), last, x, y);
}

/// A surface that is made is black, as large as was asked for and shown nowhere, with none
/// of the tiles of one that had its number; one that is mapped keeps its pixels and is shown
/// where was said; one that is deleted is gone, with its tiles. No other surface changes.
pub proof fn a_surface_is_as_it_was_asked_for(s: State, surface: u16, width: u16, height: u16, format: u8, x: u32, y: u32, other: u16)
    requires
        other != surface,
    ensures
        ({
            let (after, res) = act_spec(s, MessageView::CreateSurface { surface, width, height, format });
            let (was, now) = (s.graphics, after.graphics);
            res is Ok ==> {
                &&& now.surfaces.contains_key(surface)
                &&& now.surfaces[surface].width == width && now.surfaces[surface].height == height
                &&& now.surfaces[surface].pixels.len() == 4 * (width * height)
                &&& forall|i: int|
                    0 <= i < now.surfaces[surface].pixels.len() ==> #[trigger] now.surfaces[surface].pixels[i] == 0
                &&& now.surfaces[surface].mapped is None && now.surfaces[surface].invalid.len() == 0
                &&& now.progressive matches Some(p) ==> !p.contains_key(surface)
                &&& now.surfaces.contains_key(other) == was.surfaces.contains_key(other)
                &&& was.surfaces.contains_key(other) ==> now.surfaces[other] == was.surfaces[other]
            }
        }),
        ({
            let (after, res) = act_spec(s, MessageView::MapSurfaceToOutput { surface, x, y });
            let (was, now) = (s.graphics, after.graphics);
            &&& res is Ok
            &&& now.surfaces.dom() == was.surfaces.dom()
            &&& was.surfaces.contains_key(surface) ==> now.surfaces[surface].mapped == Some((x, y))
                && now.surfaces[surface].pixels == was.surfaces[surface].pixels && now.surfaces[surface].invalid
                == was.surfaces[surface].invalid && now.surfaces[surface].width == was.surfaces[surface].width
                && now.surfaces[surface].height == was.surfaces[surface].height
            &&& was.surfaces.contains_key(other) ==> now.surfaces[other] == was.surfaces[other]
        }),
        ({
            let (after, res) = act_spec(s, MessageView::DeleteSurface { surface });
            let (was, now) = (s.graphics, after.graphics);
            &&& res is Ok
            &&& !now.surfaces.contains_key(surface)
            &&& now.progressive matches Some(p) ==> !p.contains_key(surface)
            &&& now.surfaces.contains_key(other) == was.surfaces.contains_key(other)
            &&& was.surfaces.contains_key(other) ==> now.surfaces[other] == was.surfaces[other]
        }),
{
    assert(0 <= width * height) by (nonlinear_arith)
        requires
            0 <= width,
            0 <= height,
    ;
    let g = s.graphics;
    if g.surfaces.contains_key(surface) {
        let mapped = SurfaceView { mapped: Some((x, y)), ..g.surfaces[surface] };
        assert(g.surfaces.insert(surface, mapped).dom() =~= g.surfaces.dom());
    }
}

/// An evicted slot is empty, and no other slot changes.
pub proof fn an_evicted_slot_is_empty(s: State, slot: u16, other: u16)
    requires
        other != slot,
    ensures
        ({
            let (after, res) = act_spec(s, MessageView::EvictCacheEntry { slot });
            let (was, now) = (s.graphics.caches, after.graphics.caches);
            &&& res is Ok
            &&& !now.contains_key(slot)
            &&& now.contains_key(other) == was.contains_key(other)
            &&& was.contains_key(other) ==> now[other] == was[other]
            &&& after.graphics.surfaces == s.graphics.surfaces
        }),
{
    reveal(draws_spec);
}

/// Whatever is drawn into a surface, in any of the three ways, is damaged, and what was
/// damaged stays so.
pub proof fn what_is_drawn_is_damaged(s: SurfaceView, rect: Rect, bytes: Seq<u8>, x: int, y: int)
    requires
        s.wf(),
        rect.bounded(),
        rect.holds(x, y) || damaged(s.invalid, x, y),
    ensures
        damaged(s.write_spec(rect, bytes).invalid, x, y),
        damaged(s.fill_spec(rect, bytes).invalid, x, y),
        damaged(s.copy_in_spec(rect, bytes).invalid, x, y),
{
    staging_loses_nothing_and_keeps_to_its_cap(s.invalid, rect, 64);
}

/// Whether a pixel of the output is one of a mapped surface's that the first `n` of its
/// changed rectangles hold.
pub open spec fn reaches(s: SurfaceView, n: nat, x: int, y: int) -> bool {
    s.mapped matches Some((ox, oy)) && ox <= x < ox + s.width && oy <= y < oy + s.height && exists|i: int|
        0 <= i < n && (#[trigger] s.invalid[i]).holds(x - ox, y - oy)
}

/// The pixel of a surface that is mapped onto one of the output.
pub open spec fn behind(s: SurfaceView, x: int, y: int) -> Seq<u8> {
    match s.mapped {
        Some((ox, oy)) => shown_at(s, x - ox, y - oy),
        None => seq![],
    }
}

proof fn a_rectangle_reaches(s: SurfaceView, output: Rect, shown: Shown, rect: Rect, x: int, y: int)
    requires
        s.wf(),
        rect.bounded(),
        shown.frame.wf(),
        output.x == 0 && output.y == 0,
        output.width == shown.frame.width && output.height == shown.frame.height,
        0 <= x < output.width,
        0 <= y < output.height,
    ensures
        ({
            let after = present_rect(s, output, shown, rect);
            &&& after.frame.wf()
            &&& after.frame.width == shown.frame.width && after.frame.height == shown.frame.height
            &&& pixel_at(after.frame.pixels, shown.frame.width as int, x, y) == if s.mapped matches Some((ox, oy))
                && ox <= x < ox + s.width && oy <= y < oy + s.height && rect.holds(x - ox, y - oy) {
                behind(s, x, y)
            } else {
                pixel_at(shown.frame.pixels, shown.frame.width as int, x, y)
            }
        }),
{
    a_rectangle_shows(s, output, shown, rect);
    clipping_keeps_the_shared_pixels(rect, s.bounds());
    if let Some((ox, oy)) = s.mapped {
        assert(s.bounds().holds(x - ox, y - oy) == (ox <= x < ox + s.width && oy <= y < oy + s.height));
        if let Some(r) = rect.spec_clipped(s.bounds()) {
            assert(r.holds(x - ox, y - oy) == (rect.holds(x - ox, y - oy) && s.bounds().holds(x - ox, y - oy)));
            let moved = Rect {
                x: crate::framebuffer::saturated(ox, r.x) as u32,
                y: crate::framebuffer::saturated(oy, r.y) as u32,
                width: r.width,
                height: r.height,
            };
            if let Some(placed) = moved.spec_clipped(output) {
                let origin = (placed.x - ox, placed.y - oy);
                assert(shown.frame.fits(placed));
                a_surface_has_its_rows(shown.frame, s, origin, placed, placed.height as nat);
                a_blit_lands_where_its_rectangle_says(shown.frame, s.pixels, s.width as int, origin, placed, x, y);
                assert(placed.holds(x, y) == r.holds(x - ox, y - oy));
            }
        }
    }
}

proof fn a_surface_reaches(s: SurfaceView, output: Rect, shown: Shown, n: nat, x: int, y: int)
    requires
        s.wf(),
        n <= s.invalid.len(),
        shown.frame.wf(),
        output.x == 0 && output.y == 0,
        output.width == shown.frame.width && output.height == shown.frame.height,
        0 <= x < output.width,
        0 <= y < output.height,
    ensures
        ({
            let after = present_surface(s, output, shown, n);
            &&& after.frame.wf()
            &&& after.frame.width == shown.frame.width && after.frame.height == shown.frame.height
            &&& pixel_at(after.frame.pixels, shown.frame.width as int, x, y) == if reaches(s, n, x, y) {
                behind(s, x, y)
            } else {
                pixel_at(shown.frame.pixels, shown.frame.width as int, x, y)
            }
        }),
    decreases n,
{
    if n > 0 {
        let m = (n - 1) as nat;
        a_surface_reaches(s, output, shown, m, x, y);
        let before = present_surface(s, output, shown, m);
        a_rectangle_reaches(s, output, before, s.invalid[n - 1], x, y);
        if let Some((ox, oy)) = s.mapped {
            if s.invalid[n - 1].holds(x - ox, y - oy) {
                assert(exists|i: int| 0 <= i < n && (#[trigger] s.invalid[i]).holds(x - ox, y - oy));
            } else if exists|i: int| 0 <= i < m && (#[trigger] s.invalid[i]).holds(x - ox, y - oy) {
                let i = choose|i: int| 0 <= i < m && (#[trigger] s.invalid[i]).holds(x - ox, y - oy);
                assert(0 <= i < n && s.invalid[i].holds(x - ox, y - oy));
            }
        }
    }
}

proof fn surfaces_reach(
    all: Map<u16, SurfaceView>,
    output: Rect,
    shown: Shown,
    n: nat,
    top: Option<u16>,
    x: int,
    y: int,
)
    requires
        forall|k: u16| #[trigger] all.contains_key(k) ==> all[k].wf(),
        shown.frame.wf(),
        output.x == 0 && output.y == 0,
        output.width == shown.frame.width && output.height == shown.frame.height,
        0 <= x < output.width,
        0 <= y < output.height,
        n <= 0x1_0000,
        top matches Some(k) ==> k < n && all.contains_key(k) && reaches(all[k], all[k].invalid.len(), x, y),
        forall|k: u16| #[trigger]
            all.contains_key(k) && k < n && (top matches Some(t) ==> t < k) ==> !reaches(
                all[k],
                all[k].invalid.len(),
                x,
                y,
            ),
    ensures
        ({
            let after = fold_below(all, presenting(output), shown, n);
            &&& after.frame.wf()
            &&& after.frame.width == shown.frame.width && after.frame.height == shown.frame.height
            &&& pixel_at(after.frame.pixels, shown.frame.width as int, x, y) == match top {
                Some(k) => behind(all[k], x, y),
                None => pixel_at(shown.frame.pixels, shown.frame.width as int, x, y),
            }
        }),
    decreases n,
{
    if n > 0 {
        let number = (n - 1) as u16;
        let m = (n - 1) as nat;
        let before = fold_below(all, presenting(output), shown, m);
        if top == Some(number) {
            surfaces_show(all, output, shown, m);
        } else {
            surfaces_reach(all, output, shown, m, top, x, y);
        }
        if all.contains_key(number) {
            a_surface_reaches(all[number], output, before, all[number].invalid.len(), x, y);
        }
    }
}

/// A frame's end shows, at each pixel of the output, the pixel behind it of the surface with
/// the highest number that is mapped there and changed there since the last; where none is,
/// the pixel stays. And after it nothing has changed in any surface.
pub proof fn a_frames_end_shows_what_was_drawn(s: State, frame: u32, top: Option<u16>, x: int, y: int)
    requires
        s.graphics.wf(),
        s.frame.wf(),
        s.graphics.output == Some((s.frame.width, s.frame.height)),
        0 <= x < s.frame.width,
        0 <= y < s.frame.height,
        top matches Some(k) ==> s.graphics.surfaces.contains_key(k) && reaches(
            s.graphics.surfaces[k],
            s.graphics.surfaces[k].invalid.len(),
            x,
            y,
        ),
        forall|k: u16| #[trigger]
            s.graphics.surfaces.contains_key(k) && (top matches Some(t) ==> t < k) ==> !reaches(
                s.graphics.surfaces[k],
                s.graphics.surfaces[k].invalid.len(),
                x,
                y,
            ),
    ensures
        ({
            let after = act_spec(s, MessageView::EndFrame { frame }).0;
            let at = 4 * (y * s.frame.width + x);
            &&& after.frame.width == s.frame.width && after.frame.height == s.frame.height
            &&& after.frame.pixels.subrange(at, at + 4) == match top {
                Some(k) => behind(s.graphics.surfaces[k], x, y),
                None => s.frame.pixels.subrange(at, at + 4),
            }
            &&& after.graphics.surfaces.dom() == s.graphics.surfaces.dom()
            &&& forall|k: u16| #[trigger]
                s.graphics.surfaces.contains_key(k) ==> after.graphics.surfaces[k].invalid.len() == 0
                    && after.graphics.surfaces[k].pixels == s.graphics.surfaces[k].pixels
                    && after.graphics.surfaces[k].mapped == s.graphics.surfaces[k].mapped
        }),
{
    reveal(end_frame_spec);
    let output = Rect { x: 0, y: 0, width: s.frame.width, height: s.frame.height };
    let start = Shown { frame: s.frame, updates: s.updates };
    surfaces_reach(s.graphics.surfaces, output, start, 0x1_0000, top, x, y);
    assert(settled(s.graphics.surfaces).dom() =~= s.graphics.surfaces.dom());
}

} // verus!
