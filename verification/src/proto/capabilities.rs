//! What the two ends can do, exchanged once before any pixel moves.
//!
//! The server opens a share with a **Demand Active** PDU: a share identifier, and a
//! list of capability sets describing what it will send. The client answers with a
//! **Confirm Active** carrying its own list, and from then on each side may only send
//! what the other's list allowed. Getting this wrong does not fail loudly: it fails
//! several seconds later as a PDU nobody can decode, so every set this client sends
//! is written out here in full rather than being defaulted.
//!
//! # What is claimed, and what is not
//!
//! The short version is that this client takes **bitmaps and nothing else**. It
//! claims no drawing orders, no bitmap cache, no glyph cache, no offscreen cache and
//! no brushes, so a server has nothing to send but whole rectangles of pixels.
//!
//! It does claim fast-path output, which is the compact framing every modern server
//! prefers, and it asks not to be sent the compression header in front of a bitmap:
//! the update already says how long the data is.
//!
//! # Reading the server's list
//!
//! A handful of things in the server's list are read: the desktop size it decided on,
//! how large a reassembled fast-path update may be, the chunk a channel PDU may be split
//! into, how it repaints, what input it takes, and the colour depth, which is refused
//! rather than recorded where it is not the one [`super::bitmap`] decodes. Everything
//! else is stepped over by its own declared length, which is what lets a server announce
//! capabilities from a decade this client has never heard of without ending the
//! connection.

use vstd::prelude::*;

use super::bitmap;
use super::channel;
use super::wire::{
    cursor, facing, le16, le16_at, le32, le32_at, zeros, Cursor, Malformed, Reader, Step, Writer,
};

verus! {

/// `originatorId`, which [MS-RDPBCGR] requires to be the server's own MCS channel.
/// mstsc echoes the Demand Active's `pduSource` instead, and servers accept either.
pub const SERVER_CHANNEL: u16 = 0x03EA;

/// Capability set types.
pub const GENERAL: u16 = 0x01;
pub const BITMAP: u16 = 0x02;
pub const ORDER: u16 = 0x03;
pub const BITMAP_CACHE: u16 = 0x04;
pub const POINTER: u16 = 0x08;
pub const SOUND: u16 = 0x0C;
pub const INPUT: u16 = 0x0D;
pub const BRUSH: u16 = 0x0F;
pub const GLYPH_CACHE: u16 = 0x10;
pub const OFFSCREEN_CACHE: u16 = 0x11;
pub const VIRTUAL_CHANNEL: u16 = 0x14;
pub const MULTIFRAGMENT: u16 = 0x1A;
pub const LARGE_POINTER: u16 = 0x1B;

/// A capability set's own header: type and length, the length counting itself.
pub const SET_HEADER: u16 = 4;

/// `TS_CAPS_PROTOCOLVERSION`, which has one value.
pub const PROTOCOL_VERSION: u16 = 0x0200;

/// The platform this client runs on, as the General capability spells it: one that is
/// neither Windows nor macOS. A server records it and acts on none of it.
pub const PLATFORM: u16 = 4;

/// `extraFlags`:
///
/// - `0x0001` fast-path output is understood, so the server may use the short framing
///   instead of wrapping every update in MCS.
/// - `0x0400` do not put a compression header in front of a bitmap: the update
///   already carries the length, and the header is eight bytes of nothing.
pub const EXTRA_FLAGS: u16 = 0x0401;

/// `drawingFlags`: `DRAW_ALLOW_SKIP_ALPHA`, which lets the server leave the unused
/// byte of a 32-bit pixel alone instead of writing an alpha into it.
pub const DRAWING_FLAGS: u8 = 0x08;

/// What this client renders, and what it asks the desktop to be.
pub const COLOR_DEPTH: u16 = bitmap::DEPTH;

/// `orderFlags`: `NEGOTIATEORDERSUPPORT`, so the empty support array below is read as
/// the refusal it is, and `ZEROBOUNDSDELTASSUPPORT`, which every client sets.
pub const ORDER_FLAGS: u16 = 0x000A;

/// `desktopSaveYGranularity`, which is 20 whether or not anything saves a desktop.
pub const SAVE_Y_GRANULARITY: u16 = 20;

/// `inputFlags`: scancodes, extended mouse buttons, both fast-path input revisions,
/// Unicode keystrokes and a horizontal wheel. Not relative mouse motion, which needs
/// a pointer this client does not have, and not QoE timestamps, which nothing reads.
pub const INPUT_FLAGS: u16 = 0x013D;

/// `keyboardType`: the IBM enhanced 101/102-key keyboard, and the twelve function
/// keys that go with it.
pub const KEYBOARD_TYPE: u32 = 4;
pub const FUNCTION_KEYS: u32 = 12;

/// `imeFileName`, which is 64 bytes whether or not there is an input method.
pub const IME_FILE_NAME: usize = 64;

/// How many pointer shapes the server may assume are held. Zero would mean the server
/// must resend a shape on every change, which for a blinking text caret is a shape per
/// blink.
pub const POINTER_CACHE: u16 = 32;

/// `largePointerSupportFlags`: pointers up to 96x96 and up to 384x384. The first is
/// what older hosts check; the second is what a high-density desktop needs.
pub const LARGE_POINTER_FLAGS: u16 = 0x0003;

/// The least `MaxRequestSize` a client claiming `LARGE_POINTER_FLAG_384x384` may
/// send, [MS-RDPBCGR] 2.2.7.2.7: room for one 384x384 32-bit pointer.
pub const LARGE_POINTER_REQUEST: u32 = 608_299;

/// What to ask for when the server names no maximum of its own: eight megabytes, which
/// is more than a full-screen uncompressed update at any size this client opens.
pub const DEFAULT_MULTIFRAGMENT: u32 = 0x0080_0000;

/// The server's `inputFlags` that decide what this client may send it.
/// `INPUT_FLAG_FASTPATH_INPUT` and `INPUT_FLAG_FASTPATH_INPUT2` each admit fast-path
/// input, the first from an RDP 5.0 or 5.1 server, the second from every later one;
/// `INPUT_FLAG_MOUSEX` admits the extended mouse event the side buttons ride; and
/// `TS_INPUT_FLAG_MOUSE_HWHEEL` admits a horizontal wheel.
pub const SERVER_MOUSEX: u16 = 0x0004;
pub const SERVER_FASTPATH_INPUT: u16 = 0x0008;
pub const SERVER_FASTPATH_INPUT2: u16 = 0x0020;
pub const SERVER_MOUSE_HWHEEL: u16 = 0x0100;

/// How many sets [`ConfirmActive`] writes.
pub const COUNT: u16 = 13;

/// How long `sourceDescriptor` is.
pub const SOURCE_LENGTH: u16 = 8;

pub const WHAT: &'static str = "an RDP Demand Active PDU";
pub const GENERAL_SET: &'static str = "a server General capability set";
pub const BITMAP_SET: &'static str = "a server Bitmap capability set";
pub const MULTIFRAGMENT_SET: &'static str = "a server Multifragment Update capability set";
pub const VIRTUAL_CHANNEL_SET: &'static str = "a server Virtual Channel capability set";
pub const INPUT_SET: &'static str = "a server Input capability set";

/// `sourceDescriptor`. Ignored by every server, logged by some.
pub open spec fn source_bytes() -> Seq<u8> {
    // remotex, and a terminator.
    seq![0x72u8, 0x65, 0x6D, 0x6F, 0x74, 0x65, 0x78, 0x00]
}

/// What the server said when it opened the share.
#[derive(Clone, Copy, Debug, PartialEq, Eq)]
pub struct DemandActive {
    /// Names the share, and every data PDU either side sends from now on carries it.
    pub share_id: u32,
    /// The MCS channel the server sent the Demand Active from, which this client's
    /// Synchronize PDU names as its target.
    pub server_channel: u16,
    /// The desktop the server settled on, which is not always the one that was asked
    /// for: a server clamps to what its own session can be.
    pub width: u16,
    pub height: u16,
    /// The largest fast-path update this client will reassemble into one: the
    /// server's Multifragment Update capability, raised to [`LARGE_POINTER_REQUEST`]
    /// where it falls short, because that is the least a client claiming 384x384
    /// pointers may ask for.
    pub multifragment: u32,
    /// The largest chunk a virtual channel PDU may be split into, out of the server's
    /// Virtual Channel capability. A server that names none is taken to mean the
    /// smallest, which is what [MS-RDPBCGR] says every server accepts.
    pub chunk: usize,
    /// Whether the server reads a Refresh Rect PDU, out of its General capability.
    pub refresh_rect: bool,
    /// Whether it reads a Suppress Output PDU. See [`super::desktop`] for what a
    /// client does with the two.
    pub suppress_output: bool,
    /// Whether it takes a horizontal wheel, out of its Input capability.
    /// [MS-RDPBCGR] 2.2.8.1.1.3.1.1.3: the event MUST NOT go to a server that does not.
    pub horizontal_wheel: bool,
    /// Whether it takes the extended mouse event the side buttons travel on.
    pub extended_buttons: bool,
}

/// What a server's list has said so far.
#[derive(Clone, Copy)]
pub struct Read {
    pub desktop: Option<(u16, u16)>,
    pub multifragment: Option<u32>,
    pub chunk: Option<u32>,
    pub refresh_rect: bool,
    pub suppress_output: bool,
    pub input: u16,
}

pub open spec fn nothing_read() -> Read {
    Read {
        desktop: None,
        multifragment: None,
        chunk: None,
        refresh_rect: false,
        suppress_output: false,
        input: 0,
    }
}

pub open spec fn general_spec(body: Seq<u8>, read: Read) -> Result<Read, Malformed> {
    match cursor(GENERAL_SET, body).skip(18) {
        Step::Stop(e) => Err(e),
        Step::Got(_, c) => match c.u8() {
            Step::Stop(e) => Err(e),
            Step::Got(refresh, c) => match c.u8() {
                Step::Stop(e) => Err(e),
                Step::Got(suppress, c) => Ok(
                    Read { refresh_rect: refresh != 0, suppress_output: suppress != 0, ..read },
                ),
            },
        },
    }
}

pub open spec fn bitmap_spec(body: Seq<u8>, read: Read) -> Result<Read, Malformed> {
    match cursor(BITMAP_SET, body).u16_le() {
        Step::Stop(e) => Err(e),
        Step::Got(depth, c) => if depth != COLOR_DEPTH {
            Err(c.refused("a colour depth", depth as u64))
        } else {
            match c.skip(6) {
                Step::Stop(e) => Err(e),
                Step::Got(_, c) => match c.u16_le() {
                    Step::Stop(e) => Err(e),
                    Step::Got(width, c) => match c.u16_le() {
                        Step::Stop(e) => Err(e),
                        Step::Got(height, c) => Ok(Read { desktop: Some((width, height)), ..read }),
                    },
                },
            }
        },
    }
}

pub open spec fn multifragment_spec(body: Seq<u8>, read: Read) -> Result<Read, Malformed> {
    match cursor(MULTIFRAGMENT_SET, body).u32_le() {
        Step::Stop(e) => Err(e),
        Step::Got(size, c) => Ok(Read { multifragment: Some(size), ..read }),
    }
}

pub open spec fn virtual_channel_spec(body: Seq<u8>, read: Read) -> Result<Read, Malformed> {
    match cursor(VIRTUAL_CHANNEL_SET, body).skip(4) {
        Step::Stop(e) => Err(e),
        Step::Got(_, c) => if c.left() == 0 {
            Ok(read)
        } else {
            match c.u32_le() {
                Step::Stop(e) => Err(e),
                Step::Got(named, c) => if named < channel::MIN_CHUNK || named > channel::MAX_CHUNK {
                    Err(c.refused("a channel chunk size", named as u64))
                } else {
                    Ok(Read { chunk: Some(named), ..read })
                },
            }
        },
    }
}

pub open spec fn input_spec(body: Seq<u8>, read: Read) -> Result<Read, Malformed> {
    match cursor(INPUT_SET, body).u16_le() {
        Step::Stop(e) => Err(e),
        Step::Got(input, c) => Ok(Read { input, ..read }),
    }
}

/// What one capability set adds to what the list has said.
pub open spec fn set_spec(kind: u16, body: Seq<u8>, read: Read) -> Result<Read, Malformed> {
    if kind == GENERAL {
        general_spec(body, read)
    } else if kind == BITMAP {
        bitmap_spec(body, read)
    } else if kind == MULTIFRAGMENT {
        multifragment_spec(body, read)
    } else if kind == VIRTUAL_CHANNEL {
        virtual_channel_spec(body, read)
    } else if kind == INPUT {
        input_spec(body, read)
    } else {
        Ok(read)
    }
}

/// `n` more capability sets of a list, each stepped over by its own declared length.
pub open spec fn sets_step(c: Cursor, n: nat, read: Read) -> Step<Read>
    decreases n,
{
    if n == 0 {
        Step::Got(read, c)
    } else {
        match c.u16_le() {
            Step::Stop(e) => Step::Stop(e),
            Step::Got(kind, c) => match c.u16_le() {
                Step::Stop(e) => Step::Stop(e),
                Step::Got(length, c) => if length < SET_HEADER {
                    Step::Stop(c.refused("a capability set length", length as u64))
                } else {
                    match c.bytes(length - SET_HEADER) {
                        Step::Stop(e) => Step::Stop(e),
                        Step::Got(body, c) => match set_spec(kind, body, read) {
                            Err(e) => Step::Stop(e),
                            Ok(read) => sets_step(c, (n - 1) as nat, read),
                        },
                    }
                },
            },
        }
    }
}

/// What a list that has been read comes to.
pub open spec fn settled_spec(c: Cursor, share_id: u32, source: u16, read: Read) -> Result<
    DemandActive,
    Malformed,
> {
    match read.desktop {
        None => Err(c.missing("a Bitmap capability set")),
        Some((width, height)) => if read.input & (SERVER_FASTPATH_INPUT | SERVER_FASTPATH_INPUT2) == 0 {
            Err(c.refused("input flags admitting no fast-path input,", read.input as u64))
        } else {
            Ok(
                DemandActive {
                    share_id,
                    server_channel: source,
                    width,
                    height,
                    multifragment: match read.multifragment {
                        Some(size) => if size < LARGE_POINTER_REQUEST { LARGE_POINTER_REQUEST } else { size },
                        None => DEFAULT_MULTIFRAGMENT,
                    },
                    chunk: match read.chunk {
                        Some(chunk) => chunk as usize,
                        None => channel::MIN_CHUNK,
                    },
                    refresh_rect: read.refresh_rect,
                    suppress_output: read.suppress_output,
                    horizontal_wheel: read.input & SERVER_MOUSE_HWHEEL != 0,
                    extended_buttons: read.input & SERVER_MOUSEX != 0,
                },
            )
        },
    }
}

fn general_set(body: &[u8], read: Read) -> (res: Result<Read, Malformed>)
    ensures
        res == general_spec(body@, read),
{
    let mut r = Reader::new(GENERAL_SET, body);
    // The operating system it runs, the protocol version, the compression it would use
    // and the ways it would update the desktop: nothing this client varies with.
    r.skip(18)?;
    let refresh = r.u8()?;
    let suppress = r.u8()?;
    Ok(Read { refresh_rect: refresh != 0, suppress_output: suppress != 0, ..read })
}

fn bitmap_set(body: &[u8], read: Read) -> (res: Result<Read, Malformed>)
    ensures
        res == bitmap_spec(body@, read),
{
    let mut r = Reader::new(BITMAP_SET, body);
    let depth = r.u16_le()?;
    if depth != COLOR_DEPTH {
        return Err(r.refuse("a colour depth", depth as u64));
    }
    // The three flags for the depths an ancient client could receive.
    r.skip(6)?;
    let width = r.u16_le()?;
    let height = r.u16_le()?;
    Ok(Read { desktop: Some((width, height)), ..read })
}

fn virtual_channel_set(body: &[u8], read: Read) -> (res: Result<Read, Malformed>)
    ensures
        res == virtual_channel_spec(body@, read),
{
    let mut r = Reader::new(VIRTUAL_CHANNEL_SET, body);
    // `flags`, which say what compression the server would use. This client claims
    // none, so a server has nothing to compress with.
    r.skip(4)?;
    // `VCChunkSize`, which older servers leave off the end.
    if r.is_empty() {
        return Ok(read);
    }
    let named = r.u32_le()?;
    if (named as usize) < channel::MIN_CHUNK || named as usize > channel::MAX_CHUNK {
        return Err(r.refuse("a channel chunk size", named as u64));
    }
    Ok(Read { chunk: Some(named), ..read })
}

fn read_set(kind: u16, body: &[u8], read: Read) -> (res: Result<Read, Malformed>)
    ensures
        res == set_spec(kind, body@, read),
{
    match kind {
        GENERAL => general_set(body, read),
        BITMAP => bitmap_set(body, read),
        MULTIFRAGMENT => {
            let mut r = Reader::new(MULTIFRAGMENT_SET, body);
            let size = r.u32_le()?;
            Ok(Read { multifragment: Some(size), ..read })
        },
        VIRTUAL_CHANNEL => virtual_channel_set(body, read),
        INPUT => {
            let mut r = Reader::new(INPUT_SET, body);
            // `inputFlags`. The keyboard fields after them describe the server's
            // keyboard, which nothing sent from here depends on.
            let input = r.u16_le()?;
            Ok(Read { input, ..read })
        },
        _ => Ok(read),
    }
}

fn read_sets(r: &mut Reader<'_>, count: u16) -> (res: Result<Read, Malformed>)
    ensures
        match res {
            Ok(read) => sets_step(old(r)@, count as nat, nothing_read()) == Step::Got(read, final(r)@),
            Err(e) => sets_step(old(r)@, count as nat, nothing_read()) == Step::<Read>::Stop(e),
        },
        final(r)@.within(),
{
    let _ = r.at();
    let mut read = Read {
        desktop: None,
        multifragment: None,
        chunk: None,
        refresh_rect: false,
        suppress_output: false,
        input: 0,
    };
    for i in 0..count
        invariant
            r@.within(),
            sets_step(old(r)@, count as nat, nothing_read()) == sets_step(r@, (count - i) as nat, read),
    {
        let kind = r.u16_le()?;
        let length = r.u16_le()?;
        if length < SET_HEADER {
            return Err(r.refuse("a capability set length", length as u64));
        }
        let body = r.bytes((length - SET_HEADER) as usize)?;
        read = read_set(kind, body, read)?;
    }
    Ok(read)
}

impl DemandActive {
    pub open spec fn decode_spec(source: u16, body: Seq<u8>) -> Result<DemandActive, Malformed> {
        match cursor(WHAT, body).u32_le() {
            Step::Stop(e) => Err(e),
            Step::Got(share_id, c) => match c.u16_le() {
                Step::Stop(e) => Err(e),
                Step::Got(descriptor, c) => match c.u16_le() {
                    Step::Stop(e) => Err(e),
                    Step::Got(_, c) => match c.skip(descriptor as int) {
                        Step::Stop(e) => Err(e),
                        Step::Got(_, c) => match c.u16_le() {
                            Step::Stop(e) => Err(e),
                            Step::Got(count, c) => match c.skip(2) {
                                Step::Stop(e) => Err(e),
                                Step::Got(_, c) => match sets_step(c, count as nat, nothing_read()) {
                                    Step::Stop(e) => Err(e),
                                    Step::Got(read, c) => settled_spec(c, share_id, source, read),
                                },
                            },
                        },
                    },
                },
            },
        }
    }

    /// Read a Demand Active PDU, given the channel its share control header names as
    /// the source and the body after that header.
    ///
    /// A server whose Input capability admits no fast-path input is refused here:
    /// every keystroke and pointer event this client sends travels that way.
    pub fn decode(source: u16, body: &[u8]) -> (res: Result<DemandActive, Malformed>)
        ensures
            res == Self::decode_spec(source, body@),
    {
        let mut r = Reader::new(WHAT, body);
        let share_id = r.u32_le()?;
        let descriptor = r.u16_le()?;
        let _combined = r.u16_le()?;
        r.skip(descriptor as usize)?;
        let count = r.u16_le()?;
        r.skip(2)?;
        let read = read_sets(&mut r, count)?;
        let (width, height) = match read.desktop {
            Some(desktop) => desktop,
            None => {
                return Err(r.missing("a Bitmap capability set"));
            },
        };
        let input: u16 = read.input;
        if input & (SERVER_FASTPATH_INPUT | SERVER_FASTPATH_INPUT2) == 0 {
            return Err(r.refuse("input flags admitting no fast-path input,", input as u64));
        }
        Ok(
            DemandActive {
                share_id,
                server_channel: source,
                width,
                height,
                multifragment: match read.multifragment {
                    Some(size) => if size < LARGE_POINTER_REQUEST { LARGE_POINTER_REQUEST } else { size },
                    None => DEFAULT_MULTIFRAGMENT,
                },
                chunk: match read.chunk {
                    Some(chunk) => chunk as usize,
                    None => channel::MIN_CHUNK,
                },
                refresh_rect: read.refresh_rect,
                suppress_output: read.suppress_output,
                horizontal_wheel: input & SERVER_MOUSE_HWHEEL != 0,
                extended_buttons: input & SERVER_MOUSEX != 0,
            },
        )
    }
}

/// What this client answers with.
pub struct ConfirmActive {
    /// The share the server named.
    pub share_id: u32,
    /// The desktop the server named. Echoed rather than re-asked: the size was
    /// negotiated in the GCC conference and settled by the Demand Active.
    pub width: u16,
    pub height: u16,
    /// The keyboard layout named in the GCC conference, repeated because the Input
    /// capability has a field for it and a server may read either.
    pub keyboard_layout: u32,
    /// The largest fast-path update this client will be sent in one piece: the
    /// server's own number, handed back.
    pub multifragment: u32,
}

/// A capability set: its type, its length with this header, and its body.
pub open spec fn set_bytes(kind: u16, body: Seq<u8>) -> Seq<u8> {
    le16(kind) + le16((SET_HEADER + body.len()) as u16) + body
}

pub open spec fn general_body() -> Seq<u8> {
    le16(PLATFORM) + le16(0) + le16(PROTOCOL_VERSION) + zeros(2)
        // No bulk compression.
        + le16(0) + le16(EXTRA_FLAGS) + zeros(6)
        // Refresh Rect and Suppress Output: neither is asked for.
        + seq![0u8, 0u8]
}

pub open spec fn bitmap_body(width: u16, height: u16) -> Seq<u8> {
    // The 1-, 4- and 8-bit receive flags have to say yes and mean nothing.
    le16(COLOR_DEPTH) + le16(1) + le16(1) + le16(1) + le16(width) + le16(height) + zeros(2)
        // The desktop may be resized, and bitmaps may arrive compressed and several at a
        // time.
        + le16(1) + le16(1) + seq![0u8, DRAWING_FLAGS] + le16(1) + zeros(2)
}

pub open spec fn order_body() -> Seq<u8> {
    zeros(20) + le16(1) + le16(SAVE_Y_GRANULARITY) + zeros(2) + le16(1) + le16(0) + le16(ORDER_FLAGS)
        // The support array: one byte per order, and every one of them a refusal.
        + zeros(32)
        // No desktop is saved, so no space is set aside to save it in.
        + zeros(20)
}

pub open spec fn input_body(layout: u32) -> Seq<u8> {
    le16(INPUT_FLAGS) + zeros(2) + le32(layout) + le32(KEYBOARD_TYPE) + le32(0) + le32(FUNCTION_KEYS)
        + zeros(IME_FILE_NAME as int)
}

impl ConfirmActive {
    /// The type and the body of each capability set, in the order they are sent.
    pub open spec fn list(&self) -> Seq<(u16, Seq<u8>)> {
        seq![
            (GENERAL, general_body()),
            (BITMAP, bitmap_body(self.width, self.height)),
            (ORDER, order_body()),
            // A cache of no entries, which is how a client says it caches nothing.
            (BITMAP_CACHE, zeros(36)),
            // Colour pointers are understood.
            (POINTER, le16(1) + le16(POINTER_CACHE) + le16(POINTER_CACHE)),
            (INPUT, input_body(self.keyboard_layout)),
            // Solid brushes only, which is all a client that draws no orders can be sent.
            (BRUSH, le32(0)),
            // Ten glyph caches and a fragment cache, all of no entries.
            (GLYPH_CACHE, zeros(48)),
            (OFFSCREEN_CACHE, zeros(8)),
            // No compression in either direction, and the least chunk the field allows.
            (VIRTUAL_CHANNEL, le32(0) + le32(channel::MIN_CHUNK as u32)),
            // No beeps.
            (SOUND, le16(0) + zeros(2)),
            (LARGE_POINTER, le16(LARGE_POINTER_FLAGS)),
            (MULTIFRAGMENT, le32(self.multifragment)),
        ]
    }

    pub open spec fn bytes(&self) -> Seq<u8> {
        let sets = list_bytes(self.list());
        le32(self.share_id) + le16(SERVER_CHANNEL) + le16(SOURCE_LENGTH) + le16((sets.len() + 4) as u16)
            + source_bytes() + le16(COUNT) + zeros(2) + sets
    }
}

/// Capability sets, one after another.
pub open spec fn list_bytes(list: Seq<(u16, Seq<u8>)>) -> Seq<u8>
    decreases list.len(),
{
    if list.len() == 0 {
        seq![]
    } else {
        list_bytes(list.drop_last()) + set_bytes(list.last().0, list.last().1)
    }
}

/// A set added to the ones before it.
fn push_set(w: &mut Writer, kind: u16, body: Writer, list: Ghost<Seq<(u16, Seq<u8>)>>) -> (after: Ghost<
    Seq<(u16, Seq<u8>)>,
>)
    requires
        body@.len() <= 0xFFFF - SET_HEADER,
        old(w)@ == list_bytes(list@),
    ensures
        after@ == list@.push((kind, body@)),
        final(w)@ == list_bytes(after@),
        final(w)@.len() == old(w)@.len() + 4 + body@.len(),
{
    let ghost after = list@.push((kind, body@));
    assert(after.drop_last() =~= list@);
    let body = body.finish();
    w.u16_le(kind);
    w.u16_le(SET_HEADER + body.len() as u16);
    w.bytes(body.as_slice());
    assert(w@ =~= list_bytes(after));
    Ghost(after)
}

fn padded(n: usize) -> (w: Writer)
    ensures
        w@ == zeros(n as int),
{
    let mut w = Writer::new();
    w.zeros(n);
    assert(w@ =~= zeros(n as int));
    w
}

fn general() -> (w: Writer)
    ensures
        w@ == general_body(),
{
    let mut w = Writer::new();
    w.u16_le(PLATFORM);
    // The minor platform, the protocol version, and a pad.
    w.u16_le(0);
    w.u16_le(PROTOCOL_VERSION);
    w.zeros(2);
    // No bulk compression, which is decided in the Client Info PDU and repeated
    // here as the absence it is.
    w.u16_le(0);
    w.u16_le(EXTRA_FLAGS);
    // updateCapabilityFlag, remoteUnshareFlag and generalCompressionLevel, all of
    // which are required to be zero.
    w.zeros(6);
    // Refresh Rect and Suppress Output: neither is asked for, because a client
    // that wants a repaint has a framebuffer of its own to repaint from.
    w.u8(0);
    w.u8(0);
    assert(w@ =~= general_body());
    w
}

fn bitmap(width: u16, height: u16) -> (w: Writer)
    ensures
        w@ == bitmap_body(width, height),
{
    let mut w = Writer::new();
    w.u16_le(COLOR_DEPTH);
    // The 1-, 4- and 8-bit receive flags, which have to say yes and mean nothing.
    w.u16_le(1);
    w.u16_le(1);
    w.u16_le(1);
    w.u16_le(width);
    w.u16_le(height);
    w.zeros(2);
    // The desktop may be resized under this client, which is what lets Display
    // Control work at all.
    w.u16_le(1);
    // Bitmaps may arrive compressed, and in more than one rectangle at a time.
    w.u16_le(1);
    w.u8(0);
    w.u8(DRAWING_FLAGS);
    w.u16_le(1);
    w.zeros(2);
    assert(w@ =~= bitmap_body(width, height));
    w
}

fn order() -> (w: Writer)
    ensures
        w@ == order_body(),
{
    let mut w = Writer::new();
    // terminalDescriptor, and the pad after it.
    w.zeros(16);
    w.zeros(4);
    w.u16_le(1);
    w.u16_le(SAVE_Y_GRANULARITY);
    w.zeros(2);
    // maximumOrderLevel, and no fonts.
    w.u16_le(1);
    w.u16_le(0);
    w.u16_le(ORDER_FLAGS);
    // The support array: one byte per order, and every one of them a refusal.
    w.zeros(32);
    w.u16_le(0);
    w.u16_le(0);
    w.zeros(4);
    // No desktop is saved, so no space is set aside to save it in.
    w.u32_le(0);
    w.zeros(4);
    w.u16_le(0);
    w.zeros(2);
    assert(w@ =~= order_body());
    w
}

fn input(layout: u32) -> (w: Writer)
    ensures
        w@ == input_body(layout),
{
    let mut w = Writer::new();
    w.u16_le(INPUT_FLAGS);
    w.zeros(2);
    w.u32_le(layout);
    w.u32_le(KEYBOARD_TYPE);
    // No keyboard subtype: the enhanced keyboard has none.
    w.u32_le(0);
    w.u32_le(FUNCTION_KEYS);
    w.zeros(IME_FILE_NAME);
    assert(w@ =~= input_body(layout));
    w
}

impl ConfirmActive {
    /// The capability sets, one after another.
    pub fn sets(&self) -> (sets: Vec<u8>)
        ensures
            sets@ == list_bytes(self.list()),
            sets@.len() == 384,
    {
        let mut w = Writer::with_capacity(384);
        let ghost list: Seq<(u16, Seq<u8>)> = seq![];
        assert(w@ =~= list_bytes(list));
        let list = push_set(&mut w, GENERAL, general(), Ghost(list));
        let list = push_set(&mut w, BITMAP, bitmap(self.width, self.height), list);
        let list = push_set(&mut w, ORDER, order(), list);
        // A cache of no entries, which is how a client says it caches nothing.
        let list = push_set(&mut w, BITMAP_CACHE, padded(36), list);
        let mut body = Writer::new();
        // Colour pointers are understood; the alternative is a two-colour mask.
        body.u16_le(1);
        body.u16_le(POINTER_CACHE);
        body.u16_le(POINTER_CACHE);
        assert(body@ =~= le16(1) + le16(POINTER_CACHE) + le16(POINTER_CACHE));
        let list = push_set(&mut w, POINTER, body, list);
        let list = push_set(&mut w, INPUT, input(self.keyboard_layout), list);
        let mut body = Writer::new();
        // Solid brushes only, which is all a client that draws no orders can be sent.
        body.u32_le(0);
        assert(body@ =~= le32(0));
        let list = push_set(&mut w, BRUSH, body, list);
        // Ten glyph caches and a fragment cache, all of no entries, and glyphs not
        // supported at all.
        let list = push_set(&mut w, GLYPH_CACHE, padded(48), list);
        let list = push_set(&mut w, OFFSCREEN_CACHE, padded(8), list);
        let mut body = Writer::new();
        // No compression in either direction. The chunk size is the server's to govern
        // and it ignores this one, but a `VCChunkSize` that is there MUST be within
        // 1600 and 16256 ([MS-RDPBCGR] 2.2.7.1.10), so it names the least.
        body.u32_le(0);
        body.u32_le(channel::MIN_CHUNK as u32);
        assert(body@ =~= le32(0) + le32(channel::MIN_CHUNK as u32));
        let list = push_set(&mut w, VIRTUAL_CHANNEL, body, list);
        let mut body = Writer::new();
        // No beeps. Audio is refused in the Client Info PDU and refused again here.
        body.u16_le(0);
        body.zeros(2);
        assert(body@ =~= le16(0) + zeros(2));
        let list = push_set(&mut w, SOUND, body, list);
        let mut body = Writer::new();
        body.u16_le(LARGE_POINTER_FLAGS);
        assert(body@ =~= le16(LARGE_POINTER_FLAGS));
        let list = push_set(&mut w, LARGE_POINTER, body, list);
        let mut body = Writer::new();
        body.u32_le(self.multifragment);
        assert(body@ =~= le32(self.multifragment));
        let list = push_set(&mut w, MULTIFRAGMENT, body, list);
        assert(list@ =~= self.list());
        w.finish()
    }

    /// The body of a Confirm Active PDU, for [`super::share::confirm_active`].
    pub fn encode(&self) -> (body: Vec<u8>)
        ensures
            body@ == self.bytes(),
            body@.len() == 406,
    {
        let sets = self.sets();
        let mut w = Writer::with_capacity(24 + sets.len());
        w.u32_le(self.share_id);
        w.u16_le(SERVER_CHANNEL);
        w.u16_le(SOURCE_LENGTH);
        w.u16_le((sets.len() + 4) as u16);
        w.bytes(&[0x72u8, 0x65, 0x6D, 0x6F, 0x74, 0x65, 0x78, 0x00]);
        w.u16_le(COUNT);
        w.zeros(2);
        w.bytes(sets.as_slice());
        assert(w@ =~= self.bytes());
        w.finish()
    }
}

/// Walking a list by the lengths its sets announce.
pub open spec fn walked(c: Cursor, n: nat) -> Cursor
    decreases n,
{
    if n == 0 {
        c
    } else {
        let before = walked(c, (n - 1) as nat);
        before.plus(super::wire::le16_at(before.bytes, before.at + 2) as int)
    }
}

/// Every set of a list announces the length it occupies: a reader that trusts those
/// lengths meets each set in turn, and lands on the end of the list.
pub proof fn sets_announce_their_lengths(what: &'static str, list: Seq<(u16, Seq<u8>)>, rest: Seq<u8>, n: nat)
    requires
        n <= list.len(),
        forall|i: int| 0 <= i < list.len() ==> (#[trigger] list[i]).1.len() <= 0xFFFF - SET_HEADER,
    ensures
        walked(cursor(what, list_bytes(list) + rest), n).at == list_bytes(list.take(n as int)).len(),
        n < list.len() ==> walked(cursor(what, list_bytes(list) + rest), n).faces(
            set_bytes(list[n as int].0, list[n as int].1),
        ),
    decreases n,
{
    let c = cursor(what, list_bytes(list) + rest);
    same_reader(c, n);
    if n > 0 {
        sets_announce_their_lengths(what, list, rest, (n - 1) as nat);
        let before = walked(c, (n - 1) as nat);
        same_reader(c, (n - 1) as nat);
        let set = set_bytes(list[n - 1].0, list[n - 1].1);
        let length = (SET_HEADER + list[n - 1].1.len()) as u16;
        facing(before, set);
        assert(set[2] == le16(length)[0] && set[3] == le16(length)[1]);
        assert(before.bytes[before.at + 2] == set[2] && before.bytes[before.at + 3] == set[3]);
        assert(list.take(n as int).drop_last() =~= list.take(n - 1));
        assert(list_bytes(list.take(n as int)) == list_bytes(list.take(n - 1)) + set);
    } else {
        assert(list.take(0) =~= seq![]);
    }
    if n < list.len() {
        let here = walked(c, n);
        sets_are_where_they_are(list, n);
        let set = set_bytes(list[n as int].0, list[n as int].1);
        let at = list_bytes(list.take(n as int)).len() as int;
        assert(here.bytes.subrange(at, at + set.len()) =~= set);
    }
}

/// Walking changes where a reader stands and nothing else.
proof fn same_reader(c: Cursor, n: nat)
    ensures
        walked(c, n).bytes == c.bytes,
    decreases n,
{
    if n > 0 {
        same_reader(c, (n - 1) as nat);
    }
}

/// A set stands right after those before it.
proof fn sets_are_where_they_are(list: Seq<(u16, Seq<u8>)>, n: nat)
    requires
        n < list.len(),
    ensures
        ({
            let at = list_bytes(list.take(n as int)).len() as int;
            let set = set_bytes(list[n as int].0, list[n as int].1);
            &&& at + set.len() <= list_bytes(list).len()
            &&& list_bytes(list).subrange(at, at + set.len()) == set
        }),
    decreases list.len(),
{
    let all = list_bytes(list);
    let at = list_bytes(list.take(n as int)).len() as int;
    let set = set_bytes(list[n as int].0, list[n as int].1);
    if n == list.len() - 1 {
        assert(list.take(n as int) =~= list.drop_last());
        assert(all.subrange(at, at + set.len()) =~= set);
    } else {
        sets_are_where_they_are(list.drop_last(), n);
        assert(list.drop_last().take(n as int) =~= list.take(n as int));
        assert(all.subrange(at, at + set.len()) =~= list_bytes(list.drop_last()).subrange(
            at,
            at + set.len(),
        ));
    }
}

/// The list a client sends has as many sets as it announces, and every order, bitmap
/// cache and glyph cache in it is a refusal.
pub proof fn nothing_but_bitmaps_is_claimed(confirm: &ConfirmActive)
    ensures
        confirm.list().len() == COUNT,
        confirm.list()[2].1.subrange(32, 64) == zeros(32),
        confirm.list()[3] == (BITMAP_CACHE, zeros(36)),
        confirm.list()[7] == (GLYPH_CACHE, zeros(48)),
        confirm.list()[8] == (OFFSCREEN_CACHE, zeros(8)),
{
    assert(order_body().subrange(32, 64) =~= zeros(32));
}

/// Each set a host's desktop is read from says its part where it says it, whatever was read
/// before: whether parts of the picture can be asked for again, how large the desktop is, how
/// long an update and a channel's chunk may be, and what input the host takes.
pub proof fn a_set_says_its_part(body: Seq<u8>, read: Read)
    ensures
        body.len() >= 20 ==> set_spec(1, body, read) == Ok::<Read, Malformed>(
            Read { refresh_rect: body[18] != 0, suppress_output: body[19] != 0, ..read },
        ),
        body.len() >= 12 && le16_at(body, 0) == 32 ==> set_spec(2, body, read) == Ok::<Read, Malformed>(
            Read { desktop: Some((le16_at(body, 8), le16_at(body, 10))), ..read },
        ),
        body.len() >= 12 && le16_at(body, 0) != 32 ==> set_spec(2, body, read) is Err,
        body.len() >= 2 ==> set_spec(13, body, read) == Ok::<Read, Malformed>(Read { input: le16_at(body, 0), ..read }),
        body.len() == 4 ==> set_spec(20, body, read) == Ok::<Read, Malformed>(read),
        body.len() >= 8 && 1600 <= le32_at(body, 4) <= 16256 ==> set_spec(20, body, read) == Ok::<Read, Malformed>(
            Read { chunk: Some(le32_at(body, 4)), ..read },
        ),
        body.len() >= 8 && !(1600 <= le32_at(body, 4) <= 16256) ==> set_spec(20, body, read) is Err,
        body.len() >= 4 ==> set_spec(26, body, read) == Ok::<Read, Malformed>(
            Read { multifragment: Some(le32_at(body, 0)), ..read },
        ),
{
}

/// A desktop is what its sets say, and where one of them is not there what stands for it: no
/// chunk is longer than 1600 bytes, and an update is no longer than 8 MiB. An update may always
/// be as long as the largest pointer, and a host that takes no fast-path input is refused.
pub proof fn a_desktop_is_what_its_sets_say(c: Cursor, share_id: u32, source: u16, read: Read)
    ensures
        settled_spec(c, share_id, source, read) is Ok <==> read.desktop is Some && (read.input as int / 8 % 2 == 1
            || read.input as int / 32 % 2 == 1),
        settled_spec(c, share_id, source, read) matches Ok(d) ==> {
            &&& d.share_id == share_id && d.server_channel == source
            &&& Some((d.width, d.height)) == read.desktop
            &&& d.chunk == match read.chunk {
                Some(n) => n as int,
                None => 1600,
            }
            &&& match read.multifragment {
                Some(n) => d.multifragment >= n && d.multifragment >= 608_299 && (d.multifragment == n
                    || d.multifragment == 608_299),
                None => d.multifragment == 8_388_608,
            }
            &&& d.refresh_rect == read.refresh_rect && d.suppress_output == read.suppress_output
            &&& d.horizontal_wheel == (read.input as int / 256 % 2 == 1)
            &&& d.extended_buttons == (read.input as int / 4 % 2 == 1)
        },
{
    let n = read.input;
    assert((n & (0x0008u16 | 0x0020u16) == 0) == (n / 8 % 2 == 0 && n / 32 % 2 == 0) && (n & 0x0100u16 != 0) == (n
        / 256 % 2 == 1) && (n & 0x0004u16 != 0) == (n / 4 % 2 == 1)) by (bit_vector);
}

/// What this client confirms is what a host's own sets would say: the desktop it was told of, at
/// the same depth; updates as long as was agreed; chunks of 1600 bytes; and fast-path input, with
/// every button and both wheels, on the keyboard that was asked for.
pub proof fn what_is_confirmed_reads_as_it_was_meant(confirm: &ConfirmActive, read: Read)
    ensures
        bitmap_spec(bitmap_body(confirm.width, confirm.height), read) == Ok::<Read, Malformed>(
            Read { desktop: Some((confirm.width, confirm.height)), ..read },
        ),
        multifragment_spec(le32(confirm.multifragment), read) == Ok::<Read, Malformed>(
            Read { multifragment: Some(confirm.multifragment), ..read },
        ),
        virtual_channel_spec(le32(0) + le32(channel::MIN_CHUNK as u32), read) == Ok::<Read, Malformed>(
            Read { chunk: Some(1600), ..read },
        ),
        ({
            let body = input_body(confirm.keyboard_layout);
            &&& body.len() == 84
            &&& le16_at(body, 0) == 0x013D
            &&& le32_at(body, 4) == confirm.keyboard_layout
        }),
{
    let (w, h) = (confirm.width, confirm.height);
    let b = bitmap_body(w, h);
    assert(b[0] == le16(32)[0] && b[1] == le16(32)[1]);
    assert(b[8] == le16(w)[0] && b[9] == le16(w)[1] && b[10] == le16(h)[0] && b[11] == le16(h)[1]);
    assert(le16(w)[0] + 0x100 * le16(w)[1] == w && le16(h)[0] + 0x100 * le16(h)[1] == h);
    let m = le32(confirm.multifragment);
    assert(m[0] + 0x100 * m[1] + 0x1_0000 * m[2] + 0x100_0000 * m[3] == confirm.multifragment);
    let v = le32(0) + le32(1600);
    assert(v[4] == le32(1600)[0] && v[5] == le32(1600)[1] && v[6] == le32(1600)[2] && v[7] == le32(1600)[3]);
    assert(le32_at(v, 4) == 1600);
    let i = input_body(confirm.keyboard_layout);
    let k = le32(confirm.keyboard_layout);
    assert(i[0] == le16(0x013D)[0] && i[1] == le16(0x013D)[1]);
    assert(i[4] == k[0] && i[5] == k[1] && i[6] == k[2] && i[7] == k[3]);
    assert(k[0] + 0x100 * k[1] + 0x1_0000 * k[2] + 0x100_0000 * k[3] == confirm.keyboard_layout);
}

} // verus!
