//! Keyboard and mouse, queued by the caller and encoded by the session.
//!
//! Every call turns into one [`Command`] for the session, which batches whatever has
//! queued up into as few PDUs as it can ([`crate::proto::input`]). Nothing blocks, nothing
//! can fail visibly, and a call made after the session has ended is dropped, the right
//! shape for input: a keystroke that arrives while the connection is closing has no useful
//! error for the caller to handle.

use vstd::prelude::*;

use crate::proto::display;
use crate::proto::input::{Button, Event, MAX_ROTATION};

verus! {

/// One thing for the session to do next time it wakes.
#[derive(Clone, Debug, PartialEq, Eq)]
pub enum Command {
    Input(Event),
    /// Ask the server to repaint the whole desktop.
    Refresh,
    /// Ask the server for a new desktop size, over Display Control.
    Resize { width: u32, height: u32, scale_percent: u32 },
    /// Something for the clipboard channel, in the three shapes a clipboard has.
    Clipboard(Clipboard),
    Shutdown,
}

/// One thing to say on the clipboard channel.
///
/// Format ids and bytes, and nothing about what either means: which format is text and how
/// it is encoded belong to whoever is bridging a real clipboard, not to the wire.
#[derive(Clone, Debug, PartialEq, Eq)]
pub enum Clipboard {
    /// Tell the remote what this end's clipboard now holds.
    Advertise(Vec<u32>),
    /// Ask the remote for the bytes of a format it advertised.
    Request(u32),
    /// Answer a paste the remote is waiting on.
    Respond(Option<Vec<u8>>),
}

/// A mouse button, in the three the RDP fast-path mouse event encodes directly plus the
/// two extended ones.
pub type MouseButton = Button;

/// A rotation held inside what the field carries.
pub open spec fn held(delta: i16) -> i16 {
    if delta > MAX_ROTATION {
        MAX_ROTATION
    } else if delta < -MAX_ROTATION {
        (-MAX_ROTATION) as i16
    } else {
        delta
    }
}

impl Command {
    /// Move the pointer, pressing nothing.
    pub fn mouse_move(x: u16, y: u16) -> (command: Command)
        ensures
            command == Command::Input(Event::Move { x, y }),
    {
        Command::Input(Event::Move { x, y })
    }

    /// Press or release a button, at a position.
    ///
    /// The position travels with the button event rather than being remembered from the
    /// last move, because that is how RDP's own PDU is shaped, and because a click whose
    /// coordinates came from a *previous* event is the classic source of "it clicked the
    /// wrong thing" on a laggy link.
    pub fn mouse_button(button: MouseButton, down: bool, x: u16, y: u16) -> (command: Command)
        ensures
            command == Command::Input(Event::Button { button, down, x, y }),
    {
        Command::Input(Event::Button { button, down, x, y })
    }

    /// Scroll, by a signed number of rotation units. 120 is one notch of a conventional
    /// wheel; positive is up (or right).
    ///
    /// The rotation shares its word with the event's flags on the wire, as a nine-bit
    /// two's-complement value beside a separate negative bit, so the magnitude is held
    /// inside nine bits here: a larger one would wrap into the flag bits and turn a scroll
    /// into some other event.
    pub fn wheel(delta: i16, horizontal: bool, x: u16, y: u16) -> (command: Command)
        ensures
            command == Command::Input(Event::Wheel { rotation: held(delta), horizontal, x, y }),
    {
        let rotation: i16 = if delta > MAX_ROTATION {
            MAX_ROTATION
        } else if delta < -MAX_ROTATION {
            -MAX_ROTATION
        } else {
            delta
        };
        Command::Input(Event::Wheel { rotation, horizontal, x, y })
    }

    /// Press or release a key, by RDP scancode.
    ///
    /// `extended` is the E0 prefix, right alt, the arrow cluster, the numeric-keypad Enter
    /// and slash, and the Windows keys, which the fast-path keyboard event carries as a
    /// flag beside the code.
    pub fn key(scancode: u8, extended: bool, down: bool) -> (command: Command)
        ensures
            command == Command::Input(Event::Key { scancode, extended, down }),
    {
        Command::Input(Event::Key { scancode, extended, down })
    }

    /// Ask the server to change the desktop size.
    ///
    /// `scale_percent` is the desktop's **DesktopScaleFactor**: 100 for an ordinary display
    /// and 200 for a 2x one. It rides the same PDU as the size and cannot be sent without
    /// one: a size sent without it tells the server to forget a scale it is already
    /// applying.
    ///
    /// The size and the scale are adjusted to what MS-RDPEDISP permits before they are
    /// queued; see [`sanitise_size`] and [`sanitise_scale`]. This does not rate-limit:
    /// every request costs the remote a desktop resize, so a caller driving this from a
    /// window has to debounce.
    pub fn resize(width: u32, height: u32, scale_percent: u32) -> (command: Command)
        ensures
            command == (Command::Resize {
                width: display::adjusted(width, height).0,
                height: display::adjusted(width, height).1,
                scale_percent: scaled(scale_percent),
            }),
    {
        let (width, height) = sanitise_size(width, height);
        Command::Resize { width, height, scale_percent: sanitise_scale(scale_percent) }
    }

    /// Tell the remote what this end's clipboard now holds, as Windows format ids.
    ///
    /// An empty list is a real thing to say and the one to say first: it announces an
    /// empty clipboard, where saying nothing announces that there is no clipboard on this
    /// end at all. Nothing is transferred here: the remote asks for the bytes when somebody
    /// actually pastes.
    pub fn advertise_clipboard(formats: Vec<u32>) -> (command: Command)
        ensures
            command == Command::Clipboard(Clipboard::Advertise(formats)),
    {
        Command::Clipboard(Clipboard::Advertise(formats))
    }

    /// Ask the remote for the bytes of a format it advertised.
    pub fn request_clipboard(format: u32) -> (command: Command)
        ensures
            command == Command::Clipboard(Clipboard::Request(format)),
    {
        Command::Clipboard(Clipboard::Request(format))
    }

    /// Answer a paste, with the bytes or with nothing.
    ///
    /// **Every paste has to be answered**, `None` included. The remote application asking
    /// is blocked inside its own paste handler until this arrives, which on Windows is a
    /// window that has stopped repainting rather than an error anybody sees.
    pub fn send_clipboard(data: Option<Vec<u8>>) -> (command: Command)
        ensures
            command == Command::Clipboard(Clipboard::Respond(data)),
    {
        Command::Clipboard(Clipboard::Respond(data))
    }
}

/// Bring a requested desktop size inside what MS-RDPEDISP allows.
///
/// Public because a caller that decides *whether to ask at all* has to compare against the
/// size that would really be sent: see [`display::adjust_size`], which is the same function
/// the monitor layout itself is built with, so the comparison and the PDU can never
/// disagree.
pub fn sanitise_size(width: u32, height: u32) -> (size: (u32, u32))
    ensures
        size == display::adjusted(width, height),
{
    display::adjust_size(width, height)
}

/// A scale factor inside what is allowed.
pub open spec fn scaled(percent: u32) -> u32 {
    if percent < display::MIN_SCALE {
        display::MIN_SCALE
    } else if percent > display::MAX_SCALE {
        display::MAX_SCALE
    } else {
        percent
    }
}

/// Bring a requested `DesktopScaleFactor` inside the 100..=500 MS-RDPEDISP allows.
///
/// Clamped rather than refused, with a sharper consequence than the size: a server that
/// finds *either* scale factor out of range must ignore **both**, so an invented density
/// does not cost part of the request, it costs the whole scaling of the desktop, silently.
pub fn sanitise_scale(percent: u32) -> (scale: u32)
    ensures
        scale == scaled(percent),
{
    if percent < display::MIN_SCALE {
        display::MIN_SCALE
    } else if percent > display::MAX_SCALE {
        display::MAX_SCALE
    } else {
        percent
    }
}

/// What a resize asks for is what the monitor layout says: neither its size nor its scale
/// is changed again on the way to the wire, so the two can never disagree.
pub proof fn what_is_asked_for_is_what_is_sent(width: u32, height: u32, percent: u32)
    ensures
        ({
            let size = display::adjusted(width, height);
            &&& display::adjusted(size.0, size.1) == size
            &&& display::scales(scaled(percent)) == (scaled(percent), display::DEVICE_SCALE)
            &&& scaled(scaled(percent)) == scaled(percent)
        }),
{
}

/// A wheel's delta keeps its direction, and is the rotation that reaches the wire.
pub proof fn a_held_rotation_keeps_its_direction(delta: i16)
    ensures
        -MAX_ROTATION <= held(delta) <= MAX_ROTATION,
        delta > 0 <==> held(delta) > 0,
        delta < 0 <==> held(delta) < 0,
        crate::proto::input::turned(held(delta)) == held(delta),
        crate::proto::input::turned(delta) == held(delta),
{
}

/// What is out of bounds is brought just inside them, and what is not stays: a scale to
/// between 100 and 500, and a rotation to no more than 255 either way.
pub proof fn what_is_out_of_bounds_is_brought_inside(percent: u32, delta: i16)
    ensures
        100 <= percent <= 500 ==> scaled(percent) == percent,
        percent < 100 ==> scaled(percent) == 100,
        percent > 500 ==> scaled(percent) == 500,
        -255 <= delta <= 255 ==> held(delta) == delta,
        delta < -255 ==> held(delta) == -255,
        delta > 255 ==> held(delta) == 255,
{
}

} // verus!
