//! Display Control: how a client asks for a different desktop size.
//!
//! One dynamic channel ([`super::dvc`]), one PDU each way. The server opens the channel by
//! [`CHANNEL_NAME`] and sends its [`Capabilities`]: how many monitors it will lay out and
//! how large they may be together. After that the client may send a **monitor layout**
//! whenever the window it is presenting the desktop in changes size, and the server
//! answers by tearing the share down and building it again at the new size: a Deactivate
//! All, then a fresh capability exchange.
//!
//! # One monitor, upright, of unknown physical size
//!
//! This client presents one desktop, so it sends one monitor and marks it primary. Three
//! fields that a client with a real display would fill in are deliberately left at zero:
//!
//! - **Orientation.** A window taller than it is wide is not a rotated monitor. Every
//!   desktop client sends 0 whatever its shape, and a server that is told 90 turns the
//!   desktop on its side, which is what a phone held upright would ask for.
//! - **Physical width and height.** MS-RDPEDISP's "unknown", and the honest answer from a
//!   client with no display of its own.
//! - **Scale**, unless the caller names one in range. The desktop and device scale factors
//!   are read as a pair, and a server that finds either invalid ignores both, so an
//!   out-of-range one is written as no scale at all rather than as half a pair.
//!
//! MS-RDPEDISP 2.2.

use vstd::prelude::*;

use super::wire::{
    a_word_is_in_its_place, cursor, front_faces, le32, le32_at, le32s, long_next, Cursor, Malformed, Reader, Step,
    Writer,
};

verus! {

/// The name the server opens the channel under, which is how it is told from every other
/// dynamic channel a Windows host offers.
pub const CHANNEL_NAME: &'static str = "Microsoft::Windows::RDS::DisplayControl";

/// The smallest and largest desktop a monitor layout may ask for, in either direction. A
/// width must also be even.
pub const MIN_DIMENSION: u32 = 200;
pub const MAX_DIMENSION: u32 = 8192;

/// The range a desktop scale factor is read in. Outside it, the server ignores the scale:
/// see the module doc.
pub const MIN_SCALE: u32 = 100;
pub const MAX_SCALE: u32 = 500;

/// The device scale factor, which has three permitted values and is pinned to the first:
/// this client has no display of its own to have been built for.
pub const DEVICE_SCALE: u32 = 100;

/// `DISPLAYCONTROL_HEADER` types.
pub const CAPABILITIES: u32 = 0x0000_0005;
pub const MONITOR_LAYOUT: u32 = 0x0000_0002;

/// The type and length every PDU on this channel starts with.
pub const HEADER: u32 = 8;

/// `DISPLAYCONTROL_MONITOR_PRIMARY`.
pub const PRIMARY: u32 = 0x0000_0001;

/// One `DISPLAYCONTROL_MONITOR_LAYOUT`, whose size the layout PDU announces.
pub const ENTRY: u32 = 40;

/// A whole monitor layout PDU: the header, the monitor count, and one entry.
pub const LAYOUT: u32 = 8 + 8 + 40;

pub const WHAT: &'static str = "a Display Control PDU";

/// What the server will lay out, out of its capabilities PDU.
#[derive(Clone, Copy, Debug, PartialEq, Eq)]
pub struct Capabilities {
    /// How many monitors a layout may name. This client sends one.
    pub monitors: u32,
    /// The largest total area, in pixels, that a layout may come to: the product of the
    /// two factors the server names and the number of monitors it allows.
    pub area: u64,
}

/// What a capabilities PDU says. The area of a server that names one past 64 bits is that
/// product's low 64.
pub open spec fn capabilities_spec(payload: Seq<u8>) -> Result<Capabilities, Malformed> {
    match cursor(WHAT, payload).u32_le() {
        Step::Stop(e) => Err(e),
        Step::Got(kind, c) => if kind != CAPABILITIES {
            Err(c.refused("a PDU type", kind as u64))
        } else {
            match c.u32_le() {
                Step::Stop(e) => Err(e),
                Step::Got(length, c) => if length != payload.len() {
                    Err(c.refused("a length that is not the PDU's", length as u64))
                } else {
                    match c.u32_le() {
                        Step::Stop(e) => Err(e),
                        Step::Got(monitors, c) => match c.u32_le() {
                            Step::Stop(e) => Err(e),
                            Step::Got(a, c) => match c.u32_le() {
                                Step::Stop(e) => Err(e),
                                Step::Got(b, c) => Ok(
                                    Capabilities {
                                        monitors,
                                        area: ((a * b * monitors) % 0x1_0000_0000_0000_0000) as u64,
                                    },
                                ),
                            },
                        },
                    }
                },
            }
        },
    }
}

/// Read the capabilities PDU that opens the channel.
///
/// A monitor layout PDU on this channel would be this client's own, echoed, and is refused
/// rather than read: nothing above has anything to do with one.
pub fn capabilities(payload: &[u8]) -> (res: Result<Capabilities, Malformed>)
    ensures
        res == capabilities_spec(payload@),
{
    let mut r = Reader::new(WHAT, payload);
    let kind = r.u32_le()?;
    if kind != CAPABILITIES {
        return Err(r.refuse("a PDU type", kind as u64));
    }
    let length = r.u32_le()?;
    if length as u64 != payload.len() as u64 {
        return Err(r.refuse("a length that is not the PDU's", length as u64));
    }
    let monitors = r.u32_le()?;
    let a = r.u32_le()?;
    let b = r.u32_le()?;
    proof {
        assert(0 <= a * b <= 0xFFFF_FFFF * 0xFFFF_FFFF) by (nonlinear_arith)
            requires
                0 <= a <= 0xFFFF_FFFF,
                0 <= b <= 0xFFFF_FFFF,
        ;
        assert(0 <= (a * b) * monitors <= 0xFFFF_FFFF * 0xFFFF_FFFF * 0xFFFF_FFFF) by (nonlinear_arith)
            requires
                0 <= a * b <= 0xFFFF_FFFF * 0xFFFF_FFFF,
                0 <= monitors <= 0xFFFF_FFFF,
        ;
    }
    let area: u128 = a as u128 * b as u128 * monitors as u128;
    Ok(Capabilities { monitors, area: (area % 0x1_0000_0000_0000_0000) as u64 })
}

pub open spec fn clamp_spec(n: u32) -> u32 {
    if n < MIN_DIMENSION {
        MIN_DIMENSION
    } else if n > MAX_DIMENSION {
        MAX_DIMENSION
    } else {
        n
    }
}

fn clamp(n: u32) -> (m: u32)
    ensures
        m == clamp_spec(n),
{
    if n < MIN_DIMENSION {
        MIN_DIMENSION
    } else if n > MAX_DIMENSION {
        MAX_DIMENSION
    } else {
        n
    }
}

/// The size that is really asked for.
pub open spec fn adjusted(width: u32, height: u32) -> (u32, u32) {
    ((clamp_spec(width) - clamp_spec(width) % 2) as u32, clamp_spec(height))
}

/// Bring a desktop size inside what a monitor layout may ask for: [`MIN_DIMENSION`] to
/// [`MAX_DIMENSION`], with an odd width rounded *down* so a desktop stays inside the window
/// that asked for it rather than growing a scrollbar by one pixel.
///
/// Public because a caller deciding *whether to ask at all* has to compare against the
/// size that would really be sent: asking a host for the desktop it already has is not
/// free, it answers with a full resize, so a client comparing an unadjusted 1281 against a
/// live 1280 would ask again forever.
pub fn adjust_size(width: u32, height: u32) -> (size: (u32, u32))
    ensures
        size == adjusted(width, height),
{
    let width: u32 = clamp(width);
    (width - width % 2, clamp(height))
}

/// The scale factors as they are sent: both, or neither.
pub open spec fn scales(scale: u32) -> (u32, u32) {
    if MIN_SCALE <= scale <= MAX_SCALE { (scale, DEVICE_SCALE) } else { (0, 0) }
}

pub open spec fn monitor_layout_bytes(width: u32, height: u32, scale: u32) -> Seq<u8> {
    let (width, height) = adjusted(width, height);
    let (desktop, device) = scales(scale);
    le32(MONITOR_LAYOUT) + le32(LAYOUT) + le32(ENTRY) + le32(1) + le32(PRIMARY) + le32(0) + le32(0)
        + le32(width) + le32(height) + le32(0) + le32(0) + le32(0) + le32(desktop) + le32(device)
}

/// Ask the host for a desktop of this size.
///
/// `width` and `height` come from a window and are clamped to what the protocol permits,
/// [`MIN_DIMENSION`] to [`MAX_DIMENSION`] with an odd width rounded down, rather than
/// refused: a window can be any size, and the nearest desktop the host will open is a
/// better answer than none. `scale` is the pixel density as a percentage, and is written
/// only if the server would read it.
pub fn monitor_layout(width: u32, height: u32, scale: u32) -> (pdu: Vec<u8>)
    ensures
        pdu@ == monitor_layout_bytes(width, height, scale),
        pdu@.len() == LAYOUT,
{
    let (sent_width, sent_height) = adjust_size(width, height);
    let readable = MIN_SCALE <= scale && scale <= MAX_SCALE;

    let mut w = Writer::with_capacity(LAYOUT as usize);
    w.u32_le(MONITOR_LAYOUT);
    w.u32_le(LAYOUT);
    w.u32_le(ENTRY); // MonitorLayoutSize, the size of one entry
    w.u32_le(1); // NumMonitors
    w.u32_le(PRIMARY);
    w.u32_le(0); // Left
    w.u32_le(0); // Top
    w.u32_le(sent_width);
    w.u32_le(sent_height);
    w.u32_le(0); // PhysicalWidth
    w.u32_le(0); // PhysicalHeight
    w.u32_le(0); // Orientation
    w.u32_le(if readable { scale } else { 0 }); // DesktopScaleFactor
    w.u32_le(if readable { DEVICE_SCALE } else { 0 });
    assert(w@ =~= monitor_layout_bytes(width, height, scale));
    w.finish()
}

/// A size that is asked for is one the protocol allows; one that is allowed already is
/// asked for as it is, so asking again for what was asked for changes nothing.
pub proof fn an_adjusted_size_stays_as_it_is(width: u32, height: u32)
    ensures
        MIN_DIMENSION <= adjusted(width, height).0 <= MAX_DIMENSION,
        MIN_DIMENSION <= adjusted(width, height).1 <= MAX_DIMENSION,
        adjusted(width, height).0 % 2 == 0,
        MIN_DIMENSION <= width <= MAX_DIMENSION && width % 2 == 0 && MIN_DIMENSION <= height
            <= MAX_DIMENSION ==> adjusted(width, height) == (width, height),
        adjusted(adjusted(width, height).0, adjusted(width, height).1) == adjusted(width, height),
{
}

/// A layout asks for one monitor, the primary one, at the corner of the desktop: its fourteen
/// words say how long it is, what is asked for, and how it is scaled where a host would read
/// that. A size out of bounds is brought just inside them, and an odd width is one less.
pub proof fn a_layout_asks_for_one_monitor(width: u32, height: u32, scale: u32)
    ensures
        ({
            let pdu = monitor_layout_bytes(width, height, scale);
            let word = |n: int| le32_at(pdu, 4 * n);
            let readable = 100 <= scale <= 500;
            &&& pdu.len() == 56
            &&& word(0) == 2 && word(1) == 56 && word(2) == 40 && word(3) == 1 && word(4) == 1
            &&& word(5) == 0 && word(6) == 0
            &&& word(7) as int % 2 == 0 && 200 <= word(7) <= 8192
            &&& 200 <= width <= 8192 ==> width - 1 <= word(7) <= width
            &&& width < 200 ==> word(7) == 200
            &&& width > 8192 ==> word(7) == 8192
            &&& 200 <= height <= 8192 ==> word(8) == height
            &&& height < 200 ==> word(8) == 200
            &&& height > 8192 ==> word(8) == 8192
            &&& word(9) == 0 && word(10) == 0 && word(11) == 0
            &&& word(12) == (if readable { scale as int } else { 0 })
            &&& word(13) == (if readable { 100int } else { 0 })
        }),
{
    let (w, h) = adjusted(width, height);
    let (desktop, device) = scales(scale);
    let words = seq![2u32, 56, 40, 1, 1, 0, 0, w, h, 0, 0, 0, desktop, device];
    let pdu = monitor_layout_bytes(width, height, scale);
    seven_words(2, 56, 40, 1, 1, 0, 0);
    seven_words(w, h, 0, 0, 0, desktop, device);
    let (front, back) = (seq![2u32, 56, 40, 1, 1, 0, 0], seq![w, h, 0u32, 0u32, 0u32, desktop, device]);
    assert(pdu =~= le32s(front) + le32s(back));
    assert(le32s(front) + le32s(back) =~= le32s(words));
    assert forall|n: int| 0 <= n < 14 implies #[trigger] le32_at(pdu, 4 * n) == words[n] by {
        a_word_is_in_its_place(words, n);
    }
}

proof fn seven_words(a: u32, b: u32, c: u32, d: u32, e: u32, f: u32, g: u32)
    ensures
        le32s(seq![a, b, c, d, e, f, g]) == le32(a) + le32(b) + le32(c) + le32(d) + le32(e) + le32(f) + le32(g),
{
    assert(le32s(seq![a, b, c, d, e, f, g]) =~= le32(a) + le32(b) + le32(c) + le32(d) + le32(e) + le32(f) + le32(g));
}

/// What a host says of its layouts reads back as it was sent.
pub proof fn capabilities_read_back(monitors: u32, a: u32, b: u32)
    requires
        a * b * monitors <= 0xFFFF_FFFF_FFFF_FFFF,
    ensures
        capabilities_spec(le32(5) + (le32(20) + (le32(monitors) + (le32(a) + le32(b))))) == Ok::<
            Capabilities,
            Malformed,
        >(Capabilities { monitors, area: (a * b * monitors) as u64 }),
{
    let pdu = le32(5) + (le32(20) + (le32(monitors) + (le32(a) + le32(b))));
    assert(0 <= a * b * monitors) by (nonlinear_arith)
        requires
            0 <= a,
            0 <= b,
            0 <= monitors,
    ;
    front_faces(WHAT, pdu);
    assert(pdu.len() == 20);
    five_are_next(cursor(WHAT, pdu), 5, 20, monitors, a, b);
}

proof fn five_are_next(c: Cursor, k: u32, l: u32, m: u32, a: u32, b: u32)
    requires
        c.faces(le32(k) + (le32(l) + (le32(m) + (le32(a) + le32(b))))),
    ensures
        c.u32_le() == Step::Got(k, c.plus(4)),
        c.plus(4).u32_le() == Step::Got(l, c.plus(4).plus(4)),
        c.plus(4).plus(4).u32_le() == Step::Got(m, c.plus(4).plus(4).plus(4)),
        c.plus(4).plus(4).plus(4).u32_le() == Step::Got(a, c.plus(4).plus(4).plus(4).plus(4)),
        c.plus(4).plus(4).plus(4).plus(4).u32_le() == Step::Got(b, c.plus(4).plus(4).plus(4).plus(4).plus(4)),
{
    long_next(c, k, le32(l) + (le32(m) + (le32(a) + le32(b))));
    let c1 = c.plus(4);
    long_next(c1, l, le32(m) + (le32(a) + le32(b)));
    let c2 = c1.plus(4);
    long_next(c2, m, le32(a) + le32(b));
    let c3 = c2.plus(4);
    long_next(c3, a, le32(b));
    assert(le32(b) + seq![] =~= le32(b));
    long_next(c3.plus(4), b, seq![]);
}

} // verus!
