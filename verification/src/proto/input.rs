//! What the user did, on its way to the host.
//!
//! Input takes the fast path in both directions: the same framing that carries the
//! server's updates in [`super::fastpath`] carries keystrokes and mouse events back, and
//! for the same reason: there is no share header, no security header and no channel, just
//! an action, a length, and the events.
//!
//! # Many events, one PDU
//!
//! A PDU carries a count and then that many events, which is what makes input cheap to
//! batch: a mouse dragged across a desktop is a hundred moves a second, and each one of
//! them in its own PDU would be a hundred writes a second. The count lives in four bits of
//! the first byte and so stops at fifteen; past that it moves to a byte of its own and
//! reaches [`MAX_EVENTS`]. [`pdus`] does that arithmetic and hands back as few PDUs as the
//! events will fit in.
//!
//! # The wheel shares a word with the flags
//!
//! A mouse event has one 16-bit field for both its flags and, when it is a wheel event,
//! how far the wheel turned. The rotation is the low nine bits, eight of magnitude and a
//! sign bit above them, and the flags are above that, so a rotation that does not fit does
//! not overflow into a larger number: it overflows into `PTRFLAGS_MOVE` and turns a scroll
//! into a jump. [`MAX_ROTATION`] is where that is stopped, and it is stopped here rather
//! than trusted to the caller, because the caller is holding a number of pixels.
//!
//! MS-RDPBCGR 2.2.8.1.2.

use vstd::prelude::*;
use vstd::slice::slice_subrange;

use super::wire::{be16, be16_at, le16, Writer};

verus! {

/// `FASTPATH_INPUT_ACTION_FASTPATH`, in the low two bits of the first byte. The rest of
/// that byte is the event count and two flags, secure checksum and encryption, that this
/// client never sets, its connection being inside TLS.
pub const ACTION: u8 = 0x00;

/// How many events the count in the header can hold before it needs a byte of its own.
pub const HEADER_EVENTS: usize = 15;

/// The most events one PDU can carry, the separate count being one byte.
pub const MAX_EVENTS: usize = 255;

/// Where a one-byte length stops and the two-byte form begins.
pub const SHORT_LENGTH: usize = 0x7F;

/// `eventCode`, in the top three bits of each event's header byte.
pub const SCANCODE: u8 = 0x0;
pub const MOUSE: u8 = 0x1;
pub const EXTENDED_MOUSE: u8 = 0x2;

/// `eventFlags` for a scancode event, in the low five bits of the same byte.
pub const RELEASE: u8 = 0x01;
pub const EXTENDED: u8 = 0x02;

/// `pointerFlags` of a mouse event.
pub const WHEEL_NEGATIVE: u16 = 0x0100;
pub const VERTICAL_WHEEL: u16 = 0x0200;
pub const HORIZONTAL_WHEEL: u16 = 0x0400;
pub const MOVE: u16 = 0x0800;
pub const LEFT_BUTTON: u16 = 0x1000;
pub const RIGHT_BUTTON: u16 = 0x2000;
pub const MIDDLE_BUTTON: u16 = 0x4000;
pub const DOWN: u16 = 0x8000;

/// `pointerFlags` of an extended mouse event, which shares only its `DOWN` bit with the
/// ordinary one.
pub const X1_BUTTON: u16 = 0x0001;
pub const X2_BUTTON: u16 = 0x0002;

/// The largest rotation one wheel event can carry.
///
/// The wire field is nine-bit two's complement, so it reaches -256. The magnitude is held
/// symmetric instead, because a notch up and a notch down being different sizes is a bug
/// nobody would find by reading the code.
pub const MAX_ROTATION: i16 = 255;

/// A mouse button, in the three RDP's own mouse event carries and the two that travel on
/// an event of their own.
#[derive(Clone, Copy, Debug, PartialEq, Eq)]
pub enum Button {
    Left,
    Middle,
    Right,
    /// "Back" on most mice.
    X1,
    /// "Forward" on most mice.
    X2,
}

/// One thing the user did.
#[derive(Clone, Copy, Debug, PartialEq, Eq)]
pub enum Event {
    /// A key by RDP scancode. `extended` is the E0 prefix: right alt, the arrow cluster,
    /// the numeric-keypad Enter and slash, and the Windows keys.
    Key { scancode: u8, extended: bool, down: bool },
    /// The pointer, pressing nothing.
    Move { x: u16, y: u16 },
    /// A button, at a position. The position travels with the press rather than being
    /// remembered from the last move, because that is how the PDU is shaped, and a click
    /// whose coordinates came from an earlier event is where "it clicked the wrong thing"
    /// on a slow link comes from.
    Button { button: Button, down: bool, x: u16, y: u16 },
    /// The wheel, by a signed number of rotation units: 120 is one notch of a
    /// conventional wheel, and positive is up, or right. Clamped to [`MAX_ROTATION`].
    Wheel { rotation: i16, horizontal: bool, x: u16, y: u16 },
}

/// The rotation that is sent.
pub open spec fn turned(rotation: i16) -> int {
    if rotation > MAX_ROTATION {
        MAX_ROTATION as int
    } else if rotation < -MAX_ROTATION {
        -MAX_ROTATION as int
    } else {
        rotation as int
    }
}

/// The sign bit and the low byte of the two's complement of a rotation in range.
pub open spec fn rotation_bits(rotation: int) -> int {
    if rotation < 0 { WHEEL_NEGATIVE + (0x100 + rotation) } else { rotation }
}

/// The byte every event starts with: what kind it is, and five bits that mean whatever
/// that kind says they mean.
pub open spec fn header_byte(code: u8, flags: int) -> u8 {
    (0x20 * code + flags) as u8
}

pub open spec fn mouse_bytes(code: u8, flags: int, x: u16, y: u16) -> Seq<u8> {
    seq![header_byte(code, 0)] + le16(flags as u16) + le16(x) + le16(y)
}

impl Button {
    /// The event code and the flag a button goes by.
    pub open spec fn sent_as(self) -> (u8, u16) {
        match self {
            Button::Left => (MOUSE, LEFT_BUTTON),
            Button::Middle => (MOUSE, MIDDLE_BUTTON),
            Button::Right => (MOUSE, RIGHT_BUTTON),
            Button::X1 => (EXTENDED_MOUSE, X1_BUTTON),
            Button::X2 => (EXTENDED_MOUSE, X2_BUTTON),
        }
    }
}

impl Event {
    /// The event on the wire.
    pub open spec fn bytes(self) -> Seq<u8> {
        match self {
            Event::Key { scancode, extended, down } => seq![
                header_byte(
                    SCANCODE,
                    (if down { 0int } else { RELEASE as int }) + (if extended { EXTENDED as int } else { 0 }),
                ),
                scancode,
            ],
            Event::Move { x, y } => mouse_bytes(MOUSE, MOVE as int, x, y),
            Event::Button { button, down, x, y } => mouse_bytes(
                button.sent_as().0,
                button.sent_as().1 + (if down { DOWN as int } else { 0 }),
                x,
                y,
            ),
            Event::Wheel { rotation, horizontal, x, y } => mouse_bytes(
                MOUSE,
                (if horizontal { HORIZONTAL_WHEEL as int } else { VERTICAL_WHEEL as int }) + rotation_bits(
                    turned(rotation),
                ),
                x,
                y,
            ),
        }
    }

    fn write(self, w: &mut Writer)
        ensures
            final(w)@ == old(w)@ + self.bytes(),
            self.bytes().len() <= 7,
    {
        match self {
            Event::Key { scancode, extended, down } => {
                let released: u8 = if down { 0 } else { RELEASE };
                let prefixed: u8 = if extended { EXTENDED } else { 0 };
                w.u8(0x20 * SCANCODE + released + prefixed);
                w.u8(scancode);
                assert(w@ =~= old(w)@ + self.bytes());
            },
            Event::Move { x, y } => mouse(w, MOUSE, MOVE, x, y),
            Event::Button { button, down, x, y } => {
                let (code, flag): (u8, u16) = match button {
                    Button::Left => (MOUSE, LEFT_BUTTON),
                    Button::Middle => (MOUSE, MIDDLE_BUTTON),
                    Button::Right => (MOUSE, RIGHT_BUTTON),
                    Button::X1 => (EXTENDED_MOUSE, X1_BUTTON),
                    Button::X2 => (EXTENDED_MOUSE, X2_BUTTON),
                };
                mouse(w, code, flag + if down { DOWN } else { 0 }, x, y);
            },
            Event::Wheel { rotation, horizontal, x, y } => {
                let axis: u16 = if horizontal { HORIZONTAL_WHEEL } else { VERTICAL_WHEEL };
                mouse(w, MOUSE, axis + rotation_field(rotation), x, y);
            },
        }
    }
}

/// The low nine bits of a wheel event: the low byte of the two's complement, and the sign
/// as a bit above it rather than as the ninth bit of the number.
fn rotation_field(rotation: i16) -> (bits: u16)
    ensures
        bits == rotation_bits(turned(rotation)),
        bits < 0x200,
{
    let held: i16 = if rotation > MAX_ROTATION {
        MAX_ROTATION
    } else if rotation < -MAX_ROTATION {
        -MAX_ROTATION
    } else {
        rotation
    };
    if held < 0 {
        WHEEL_NEGATIVE + (0x100 + held) as u16
    } else {
        held as u16
    }
}

fn mouse(w: &mut Writer, code: u8, flags: u16, x: u16, y: u16)
    requires
        code < 8,
    ensures
        final(w)@ == old(w)@ + mouse_bytes(code, flags as int, x, y),
        mouse_bytes(code, flags as int, x, y).len() == 7,
{
    w.u8(0x20 * code);
    w.u16_le(flags);
    w.u16_le(x);
    w.u16_le(y);
    assert(w@ =~= old(w)@ + mouse_bytes(code, flags as int, x, y));
}

/// Events one after another.
pub open spec fn events_bytes(events: Seq<Event>) -> Seq<u8>
    decreases events.len(),
{
    if events.len() == 0 {
        seq![]
    } else {
        events_bytes(events.drop_last()) + events.last().bytes()
    }
}

/// The header of a PDU, and where the count does not fit in it or the length takes two
/// bytes, those too.
pub open spec fn pdu_bytes(events: Seq<Event>) -> Seq<u8> {
    let body = events_bytes(events);
    let apart = events.len() > HEADER_EVENTS;
    let short = 2 + (if apart { 1int } else { 0 }) + body.len();
    seq![if apart { ACTION } else { (ACTION + 4 * events.len()) as u8 }] + (if short > SHORT_LENGTH {
        be16((0x8000 + short + 1) as u16)
    } else {
        seq![short as u8]
    }) + (if apart { seq![events.len() as u8] } else { seq![] }) + body
}

/// Events cut into PDUs, each of as many as fit.
pub open spec fn pdus_spec(events: Seq<Event>) -> Seq<Seq<u8>>
    decreases events.len(),
{
    if events.len() == 0 {
        seq![]
    } else if events.len() <= MAX_EVENTS {
        seq![pdu_bytes(events)]
    } else {
        seq![pdu_bytes(events.take(MAX_EVENTS as int))] + pdus_spec(events.skip(MAX_EVENTS as int))
    }
}

/// Every event, in as few PDUs as they fit in. No events are no PDUs at all.
pub fn pdus(events: &[Event]) -> (pdus: Vec<Vec<u8>>)
    ensures
        Seq::new(pdus@.len(), |i: int| pdus@[i]@) == pdus_spec(events@),
{
    let mut out: Vec<Vec<u8>> = Vec::new();
    let mut at: usize = 0;
    let ghost mut done: Seq<Seq<u8>> = seq![];
    assert(events@.skip(0) =~= events@);
    assert(done + pdus_spec(events@) =~= pdus_spec(events@));
    while at < events.len()
        invariant
            at <= events@.len(),
            done.len() == out@.len(),
            forall|i: int| 0 <= i < out@.len() ==> #[trigger] done[i] == out@[i]@,
            done + pdus_spec(events@.skip(at as int)) == pdus_spec(events@),
        decreases events@.len() - at,
    {
        let left: usize = events.len() - at;
        let size: usize = if left < MAX_EVENTS { left } else { MAX_EVENTS };
        let chunk = slice_subrange(events, at, at + size);
        let bytes = pdu(chunk);
        proof {
            let rest = events@.skip(at as int);
            assert(chunk@ =~= rest.take(size as int));
            assert(rest.skip(size as int) =~= events@.skip(at + size));
            if size == left {
                assert(rest.take(size as int) =~= rest);
            }
            let more = pdus_spec(events@.skip(at + size));
            assert(done + pdus_spec(rest) =~= done.push(bytes@) + more);
            done = done.push(bytes@);
        }
        out.push(bytes);
        at = at + size;
    }
    assert(Seq::new(out@.len(), |i: int| out@[i]@) =~= done + pdus_spec(events@.skip(at as int)));
    out
}

/// One PDU carrying between one and [`MAX_EVENTS`] events.
fn pdu(events: &[Event]) -> (bytes: Vec<u8>)
    requires
        0 < events@.len() <= MAX_EVENTS,
    ensures
        bytes@ == pdu_bytes(events@),
{
    let mut body = Writer::new();
    assert(body@ =~= events_bytes(events@.take(0)));
    for i in 0..events.len()
        invariant
            events@.len() <= MAX_EVENTS,
            body@ == events_bytes(events@.take(i as int)),
            body@.len() <= 7 * i,
    {
        assert(events@.take(i + 1).drop_last() =~= events@.take(i as int));
        events[i].write(&mut body);
    }
    assert(events@.take(events@.len() as int) =~= events@);
    let body = body.finish();

    // The count goes in the header's four bits if it fits, and in a byte after the length
    // if it does not. A header count of zero is what says to look there.
    let count: u8 = events.len() as u8;
    let apart = events.len() > HEADER_EVENTS;

    // The length field measures the whole PDU, itself included, so how long the PDU is
    // decides how many bytes that takes, and taking two makes it one longer.
    let short: usize = 2 + (if apart { 1 } else { 0 }) + body.len();

    let mut w = Writer::new();
    w.u8(if apart { ACTION } else { ACTION + 4 * count });
    if short > SHORT_LENGTH {
        // Two bytes, most significant first, with the top bit marking the form.
        w.u16_be(0x8000 + short as u16 + 1);
    } else {
        w.u8(short as u8);
    }
    if apart {
        w.u8(count);
    }
    w.bytes(body.as_slice());
    assert(w@ =~= pdu_bytes(events@));
    w.finish()
}

proof fn events_are_small(events: Seq<Event>)
    ensures
        events_bytes(events).len() <= 7 * events.len(),
    decreases events.len(),
{
    if events.len() > 0 {
        events_are_small(events.drop_last());
    }
}

/// The length in a PDU measures the whole of it, in the one byte or the two it takes.
pub proof fn a_pdu_measures_itself(events: Seq<Event>)
    requires
        0 < events.len() <= MAX_EVENTS,
    ensures
        pdu_bytes(events).len() == if pdu_bytes(events)[1] < 0x80 {
            pdu_bytes(events)[1] as int
        } else {
            be16_at(pdu_bytes(events), 1) - 0x8000
        },
        pdu_bytes(events).skip(pdu_bytes(events).len() - events_bytes(events).len()) =~= events_bytes(
            events,
        ),
{
    events_are_small(events);
}

/// The events get across in as few PDUs as they fit in: every PDU but the last is full.
pub proof fn events_take_as_few_pdus_as_they_fit_in(events: Seq<Event>)
    ensures
        pdus_spec(events).len() == (events.len() + MAX_EVENTS - 1) / MAX_EVENTS as int,
        forall|i: int|
            0 <= i < pdus_spec(events).len() ==> #[trigger] pdus_spec(events)[i] == pdu_bytes(
                events.subrange(
                    i * MAX_EVENTS,
                    if (i + 1) * MAX_EVENTS < events.len() {
                        (i + 1) * MAX_EVENTS
                    } else {
                        events.len() as int
                    },
                ),
            ),
    decreases events.len(),
{
    if events.len() == 0 {
    } else if events.len() <= MAX_EVENTS {
        assert(events.subrange(0, events.len() as int) =~= events);
    } else {
        let rest = events.skip(MAX_EVENTS as int);
        events_take_as_few_pdus_as_they_fit_in(rest);
        assert forall|i: int| 0 <= i < pdus_spec(events).len() implies #[trigger] pdus_spec(events)[i]
            == pdu_bytes(
            events.subrange(
                i * MAX_EVENTS,
                if (i + 1) * MAX_EVENTS < events.len() {
                    (i + 1) * MAX_EVENTS
                } else {
                    events.len() as int
                },
            ),
        ) by {
            if i == 0 {
                assert(events.subrange(0, MAX_EVENTS as int) =~= events.take(MAX_EVENTS as int));
            } else {
                let end = if i * MAX_EVENTS < rest.len() { i * MAX_EVENTS } else { rest.len() as int };
                assert(pdus_spec(rest)[i - 1] == pdu_bytes(rest.subrange((i - 1) * MAX_EVENTS, end)));
                assert(rest.subrange((i - 1) * MAX_EVENTS, end) =~= events.subrange(
                    i * MAX_EVENTS,
                    MAX_EVENTS + end,
                ));
            }
        }
    }
}

/// However far a wheel was turned, its rotation stays in its nine bits: the flags above
/// them are the wheel's own, so a scroll never becomes a move or a press.
pub proof fn a_rotation_stays_out_of_the_flags(rotation: i16)
    ensures
        0 <= rotation_bits(turned(rotation)) < 0x200,
        -MAX_ROTATION <= turned(rotation) <= MAX_ROTATION,
        rotation_bits(turned(rotation)) == if turned(rotation) < 0 {
            turned(rotation) + 0x200
        } else {
            turned(rotation)
        },
{
}

/// The event a host takes some bytes to be, and how many of them it is: two for a key, and
/// seven for the mouse. The top three bits of the first byte say which it is.
pub open spec fn heard(bytes: Seq<u8>) -> Option<(Event, nat)> {
    if bytes.len() < 2 {
        None
    } else if bytes[0] < 0x20 {
        Some(
            (
                Event::Key {
                    scancode: bytes[1],
                    extended: bytes[0] as int / 2 % 2 == 1,
                    down: bytes[0] % 2 == 0,
                },
                2,
            ),
        )
    } else if bytes.len() < 7 {
        None
    } else {
        let (low, high) = (bytes[1], bytes[2]);
        let x = (bytes[3] + 256 * bytes[4]) as u16;
        let y = (bytes[5] + 256 * bytes[6]) as u16;
        let down = high >= 128;
        if bytes[0] == 0x20 {
            // The flags are the high byte's bits: down, middle, right, left, move, and the
            // two wheels, whose rotation is the low byte under a sign.
            if high as int / 16 % 2 == 1 {
                Some((Event::Button { button: Button::Left, down, x, y }, 7))
            } else if high as int / 32 % 2 == 1 {
                Some((Event::Button { button: Button::Right, down, x, y }, 7))
            } else if high as int / 64 % 2 == 1 {
                Some((Event::Button { button: Button::Middle, down, x, y }, 7))
            } else if high as int / 8 % 2 == 1 {
                Some((Event::Move { x, y }, 7))
            } else if high as int / 4 % 2 == 1 || high as int / 2 % 2 == 1 {
                Some(
                    (
                        Event::Wheel {
                            rotation: (if high % 2 == 1 { low - 256 } else { low as int }) as i16,
                            horizontal: high as int / 4 % 2 == 1,
                            x,
                            y,
                        },
                        7,
                    ),
                )
            } else {
                None
            }
        } else if bytes[0] == 0x40 {
            if low == 1 {
                Some((Event::Button { button: Button::X1, down, x, y }, 7))
            } else if low == 2 {
                Some((Event::Button { button: Button::X2, down, x, y }, 7))
            } else {
                None
            }
        } else {
            None
        }
    }
}

/// The event that is meant: a wheel is turned no further than one event can say.
pub open spec fn meant(event: Event) -> Event {
    match event {
        Event::Wheel { rotation, horizontal, x, y } => Event::Wheel {
            rotation: if rotation > 255 {
                255i16
            } else if rotation < -255 {
                -255i16
            } else {
                rotation
            },
            horizontal,
            x,
            y,
        },
        _ => event,
    }
}

/// Every event is heard as it was meant, whatever comes after it.
pub proof fn an_event_is_heard_as_it_was_meant(event: Event, more: Seq<u8>)
    ensures
        heard(event.bytes() + more) == Some((meant(event), event.bytes().len())),
{
    let bytes = event.bytes() + more;
    match event {
        Event::Key { .. } => {},
        Event::Move { x, y } => {
            mouse_fields(MOUSE, MOVE as int, x, y, more);
        },
        Event::Button { button, down, x, y } => {
            let flags = button.sent_as().1 + (if down { DOWN as int } else { 0 });
            mouse_fields(button.sent_as().0, flags, x, y, more);
        },
        Event::Wheel { rotation, horizontal, x, y } => {
            let flags = (if horizontal { HORIZONTAL_WHEEL as int } else { VERTICAL_WHEEL as int })
                + rotation_bits(turned(rotation));
            mouse_fields(MOUSE, flags, x, y, more);
        },
    }
}

proof fn mouse_fields(code: u8, flags: int, x: u16, y: u16, more: Seq<u8>)
    requires
        code < 8,
        0 <= flags < 0x1_0000,
    ensures
        ({
            let bytes = mouse_bytes(code, flags, x, y) + more;
            &&& mouse_bytes(code, flags, x, y).len() == 7
            &&& bytes[0] == 0x20 * code
            &&& bytes[1] == flags % 0x100 && bytes[2] == flags / 0x100
            &&& bytes[3] + 256 * bytes[4] == x
            &&& bytes[5] + 256 * bytes[6] == y
        }),
{
    let b = mouse_bytes(code, flags, x, y);
    assert(b.len() == 7);
    assert(b[0] == header_byte(code, 0));
    assert(b[1] == le16(flags as u16)[0] && b[2] == le16(flags as u16)[1]);
    assert(b[3] == le16(x)[0] && b[4] == le16(x)[1]);
    assert(b[5] == le16(y)[0] && b[6] == le16(y)[1]);
}

/// Events that are meant differently are never the same bytes.
pub proof fn different_events_are_different_bytes(one: Event, other: Event)
    requires
        meant(one) != meant(other),
    ensures
        one.bytes() != other.bytes(),
{
    an_event_is_heard_as_it_was_meant(one, seq![]);
    an_event_is_heard_as_it_was_meant(other, seq![]);
}

/// The events a host hears in some bytes, as many as it was told there are.
pub open spec fn all_heard(bytes: Seq<u8>, count: nat) -> Option<Seq<Event>>
    decreases count,
{
    if count == 0 {
        if bytes.len() == 0 { Some(seq![]) } else { None }
    } else {
        match heard(bytes) {
            None => None,
            Some((event, taken)) => match all_heard(bytes.skip(taken as int), (count - 1) as nat) {
                None => None,
                Some(rest) => Some(seq![event] + rest),
            },
        }
    }
}

/// The events a host hears in a whole PDU: the count is in the upper six bits of the first
/// byte, or in a byte of its own after the length where those are zero; the length is one
/// byte, or two of which the first has its top bit set.
pub open spec fn pdu_heard(pdu: Seq<u8>) -> Option<Seq<Event>> {
    if pdu.len() < 2 || pdu[0] % 4 != 0 {
        None
    } else {
        let after = if pdu[1] >= 128 { 3int } else { 2 };
        let length = if pdu[1] >= 128 && pdu.len() > 2 {
            256 * (pdu[1] - 128) + pdu[2]
        } else {
            pdu[1] as int
        };
        if length != pdu.len() || pdu.len() <= after {
            None
        } else if pdu[0] == 0 {
            all_heard(pdu.skip(after + 1), pdu[after] as nat)
        } else {
            all_heard(pdu.skip(after), (pdu[0] / 4) as nat)
        }
    }
}

proof fn events_join(first: Event, rest: Seq<Event>)
    ensures
        events_bytes(seq![first] + rest) == first.bytes() + events_bytes(rest),
    decreases rest.len(),
{
    let all = seq![first] + rest;
    if rest.len() == 0 {
        assert(all.drop_last() =~= seq![]);
        assert(events_bytes(all.drop_last()) =~= seq![]);
        assert(events_bytes(all) =~= first.bytes() + events_bytes(rest));
    } else {
        events_join(first, rest.drop_last());
        assert(all.drop_last() =~= seq![first] + rest.drop_last());
        assert(events_bytes(all) =~= first.bytes() + events_bytes(rest));
    }
}

proof fn events_are_heard(events: Seq<Event>)
    ensures
        all_heard(events_bytes(events), events.len()) == Some(events.map_values(|e: Event| meant(e))),
    decreases events.len(),
{
    if events.len() == 0 {
        assert(events.map_values(|e: Event| meant(e)) =~= seq![]);
    } else {
        let (first, rest) = (events[0], events.skip(1));
        assert(events =~= seq![first] + rest);
        events_join(first, rest);
        an_event_is_heard_as_it_was_meant(first, events_bytes(rest));
        let bytes = events_bytes(events);
        assert(bytes.skip(first.bytes().len() as int) =~= events_bytes(rest));
        events_are_heard(rest);
        assert(events.map_values(|e: Event| meant(e)) =~= seq![meant(first)] + rest.map_values(
            |e: Event| meant(e),
        ));
    }
}

/// A PDU's events are heard as they were meant, in the order they were given.
pub proof fn a_pdu_is_heard_as_it_was_meant(events: Seq<Event>)
    requires
        0 < events.len() <= 255,
    ensures
        pdu_heard(pdu_bytes(events)) == Some(events.map_values(|e: Event| meant(e))),
{
    let pdu = pdu_bytes(events);
    let body = events_bytes(events);
    events_are_small(events);
    events_are_heard(events);
    let apart = events.len() > 15;
    let short = 2 + (if apart { 1int } else { 0 }) + body.len();
    let after = if short > 0x7F { 3int } else { 2 };
    if short > 0x7F {
        let length = (0x8000 + short + 1) as u16;
        assert(pdu[1] == be16(length)[0] && pdu[2] == be16(length)[1]);
    } else {
        assert(pdu[1] == short);
    }
    if apart {
        assert(pdu[after] == events.len());
        assert(pdu.skip(after + 1) =~= body);
    } else {
        assert(pdu[0] == 4 * events.len());
        assert(pdu.skip(after) =~= body);
    }
}

} // verus!
