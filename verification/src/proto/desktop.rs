//! What a client asks of a desktop that is already up, and the last thing a server
//! says about one.
//!
//! Three share data PDUs on the I/O channel, none of which belongs to a handshake:
//! they arrive, or go out, in the middle of a session that is otherwise nothing but
//! updates and input.
//!
//! # Asking for pixels again
//!
//! A client that has lost part of the desktop has two ways to ask for it back, and a
//! server says in its General capability set which of them it implements:
//!
//! - **Refresh Rect** names the rectangles to repaint. It is the PDU the protocol
//!   provides for exactly this.
//! - **Suppress Output** says whether to send updates at all. Turning updates off and
//!   on again makes a server paint the whole desktop, which is the documented
//!   workaround for a host that answers Refresh Rect by doing nothing.
//!
//! [`repaint`] prefers Suppress Output where a server offers it, for that reason.
//!
//! # The reason a session ended
//!
//! A server that is closing a session says why first, in a Set Error Info PDU, and it
//! sends the same PDU carrying zero to mean *nothing is wrong*, which a quiet Windows
//! session does from time to time. [`error_info`] is that distinction.
//!
//! [MS-RDPBCGR] 2.2.11.2.1, 2.2.11.3.1 and 2.2.5.1.1.

use vstd::prelude::*;

use super::share;
use super::wire::{cursor, le16, le16_at, Malformed, Reader, Step, Writer};

verus! {

/// `PDUTYPE2_REFRESH_RECT`.
pub const REFRESH_RECT: u8 = 0x21;

/// `PDUTYPE2_SUPPRESS_OUTPUT`.
pub const SUPPRESS_OUTPUT: u8 = 0x23;

/// `ALLOW_DISPLAY_UPDATES`, beside which a rectangle says what to paint. Its
/// opposite, `SUPPRESS_DISPLAY_UPDATES`, is zero and carries no rectangle at all.
pub const ALLOW: u8 = 0x01;

pub const ENDED: &'static str = "the server ended the session";

/// The last row or column of a side this long: edges on the wire are inclusive, and an
/// empty side stays zero, since nothing on the wire can be negative.
pub open spec fn last(side: u16) -> u16 {
    if side == 0 { 0 } else { (side - 1) as u16 }
}

/// `TS_RECTANGLE16` covering a desktop of this size.
pub open spec fn rectangle_bytes(width: u16, height: u16) -> Seq<u8> {
    le16(0) + le16(0) + le16(last(width)) + le16(last(height))
}

pub open spec fn refresh_body(width: u16, height: u16) -> Seq<u8> {
    seq![1u8, 0u8, 0u8, 0u8] + rectangle_bytes(width, height)
}

pub open spec fn suppress_body(desktop: Option<(u16, u16)>) -> Seq<u8> {
    match desktop {
        Some((width, height)) => seq![ALLOW, 0u8, 0u8, 0u8] + rectangle_bytes(width, height),
        None => seq![0u8, 0u8, 0u8, 0u8],
    }
}

/// The PDUs that ask a server to paint the whole desktop again, in the order they
/// must be sent, which is none at all for a server that offers neither way.
///
/// `width` and `height` are the desktop's, and the rectangle sent is all of it.
pub fn repaint(
    user: u16,
    share_id: u32,
    width: u16,
    height: u16,
    refresh_rect: bool,
    suppress_output: bool,
) -> (pdus: Vec<Vec<u8>>)
    ensures
        if suppress_output {
            &&& pdus@.len() == 2
            &&& pdus@[0]@ == share::data_bytes(SUPPRESS_OUTPUT, user, share_id, suppress_body(None))
            &&& pdus@[1]@ == share::data_bytes(
                SUPPRESS_OUTPUT,
                user,
                share_id,
                suppress_body(Some((width, height))),
            )
        } else if refresh_rect {
            &&& pdus@.len() == 1
            &&& pdus@[0]@ == share::data_bytes(
                REFRESH_RECT,
                user,
                share_id,
                refresh_body(width, height),
            )
        } else {
            pdus@.len() == 0
        },
{
    let mut pdus: Vec<Vec<u8>> = Vec::new();
    if suppress_output {
        pdus.push(suppress(user, share_id, None));
        pdus.push(suppress(user, share_id, Some((width, height))));
    } else if refresh_rect {
        pdus.push(refresh(user, share_id, width, height));
    }
    pdus
}

/// A Refresh Rect PDU naming the whole desktop.
fn refresh(user: u16, share_id: u32, width: u16, height: u16) -> (pdu: Vec<u8>)
    ensures
        pdu@ == share::data_bytes(REFRESH_RECT, user, share_id, refresh_body(width, height)),
{
    let mut w = Writer::with_capacity(12);
    w.u8(1); // numberOfAreas
    w.zeros(3);
    rectangle(&mut w, width, height);
    let body = w.finish();
    assert(body@ =~= refresh_body(width, height));
    share::data(REFRESH_RECT, user, share_id, body.as_slice())
}

/// A Suppress Output PDU. `Some` turns updates back on for that desktop; `None`
/// turns them off.
fn suppress(user: u16, share_id: u32, desktop: Option<(u16, u16)>) -> (pdu: Vec<u8>)
    ensures
        pdu@ == share::data_bytes(SUPPRESS_OUTPUT, user, share_id, suppress_body(desktop)),
{
    let mut w = Writer::with_capacity(12);
    w.u8(if desktop.is_some() { ALLOW } else { 0 });
    w.zeros(3);
    if let Some((width, height)) = desktop {
        rectangle(&mut w, width, height);
    }
    let body = w.finish();
    assert(body@ =~= suppress_body(desktop));
    share::data(SUPPRESS_OUTPUT, user, share_id, body.as_slice())
}

/// Its edges are *inclusive*, so a desktop is one short of its own width.
fn rectangle(w: &mut Writer, width: u16, height: u16)
    ensures
        final(w)@ == old(w)@ + rectangle_bytes(width, height),
{
    w.u16_le(0); // left
    w.u16_le(0); // top
    w.u16_le(width.saturating_sub(1));
    w.u16_le(height.saturating_sub(1));
    assert(w@ =~= old(w)@ + rectangle_bytes(width, height));
}

/// What a Set Error Info PDU says: `Ok` is that nothing is wrong.
pub open spec fn error_info_spec(body: Seq<u8>) -> Result<(), Malformed> {
    match cursor(ENDED, body).u32_le() {
        Step::Stop(e) => Err(e),
        Step::Got(code, _) => if code == 0 {
            Ok(())
        } else {
            Err(Malformed::Reported { what: ENDED, reason: description(code), code })
        },
    }
}

/// Read a Set Error Info PDU. `Ok(())` is the server saying nothing is wrong.
///
/// Anything else is the end of the session, and the error carries the server's own
/// reason: there is nothing further to ask it, and nowhere better to turn the code
/// into a sentence.
pub fn error_info(body: &[u8]) -> (res: Result<(), Malformed>)
    ensures
        res == error_info_spec(body@),
{
    let mut r = Reader::new(ENDED, body);
    match r.u32_le()? {
        0 => Ok(()),
        code => Err(r.report(describe(code), code)),
    }
}

/// What a Set Error Info code means, for the codes that do not depend on which
/// protocol was in use. The rest are numbered and left that way: a name invented for
/// a code is worse than the code.
pub open spec fn description(code: u32) -> &'static str {
    if code == 0x01 {
        "an administrator disconnected the session"
    } else if code == 0x02 {
        "an administrator logged the session off"
    } else if code == 0x03 {
        "the session was idle for longer than the host allows"
    } else if code == 0x04 {
        "the logon took longer than the host allows"
    } else if code == 0x05 {
        "another connection took the session over"
    } else if code == 0x06 {
        "the host ran out of memory"
    } else if code == 0x07 {
        "the host denied the connection"
    } else if code == 0x09 {
        "the account is not allowed to log on to this host"
    } else if code == 0x0A {
        "the host wants credentials entered at its own logon screen"
    } else if code == 0x0B {
        "the user disconnected the session"
    } else if code == 0x0C {
        "the user logged the session off"
    } else if code == 0x10 {
        "the host's desktop compositor stopped"
    } else if code == 0x17 {
        "the host's logon process stopped"
    } else if code == 0x18 {
        "the host's session manager stopped"
    } else {
        "for a reason this client has no name for"
    }
}

pub fn describe(code: u32) -> (text: &'static str)
    ensures
        text == description(code),
{
    match code {
        0x0000_0001 => "an administrator disconnected the session",
        0x0000_0002 => "an administrator logged the session off",
        0x0000_0003 => "the session was idle for longer than the host allows",
        0x0000_0004 => "the logon took longer than the host allows",
        0x0000_0005 => "another connection took the session over",
        0x0000_0006 => "the host ran out of memory",
        0x0000_0007 => "the host denied the connection",
        0x0000_0009 => "the account is not allowed to log on to this host",
        0x0000_000A => "the host wants credentials entered at its own logon screen",
        0x0000_000B => "the user disconnected the session",
        0x0000_000C => "the user logged the session off",
        0x0000_0010 => "the host's desktop compositor stopped",
        0x0000_0017 => "the host's logon process stopped",
        0x0000_0018 => "the host's session manager stopped",
        _ => "for a reason this client has no name for",
    }
}

/// The rectangle that is asked for is the whole desktop and no more: it names the first and
/// the last column and row, so a pixel is one of the desktop's where it is between them.
pub proof fn the_whole_desktop_is_asked_for(width: u16, height: u16, x: int, y: int)
    requires
        width > 0,
        height > 0,
    ensures
        ({
            let (one, all) = (refresh_body(width, height), suppress_body(Some((width, height))));
            let (left, top, right, bottom) = (le16_at(one, 4), le16_at(one, 6), le16_at(one, 8), le16_at(one, 10));
            &&& one.len() == 12 && one[0] == 1 && one[1] == 0 && one[2] == 0 && one[3] == 0
            &&& left <= x <= right && top <= y <= bottom <==> 0 <= x < width && 0 <= y < height
            &&& all == one
            &&& suppress_body(None) == seq![0u8, 0u8, 0u8, 0u8]
        }),
{
    let one = refresh_body(width, height);
    let (r, b) = (last(width), last(height));
    assert(one[8] == le16(r)[0] && one[9] == le16(r)[1]);
    assert(one[10] == le16(b)[0] && one[11] == le16(b)[1]);
    assert(one[4] == le16(0)[0] && one[5] == le16(0)[1] && one[6] == le16(0)[0] && one[7] == le16(0)[1]);
    assert(suppress_body(Some((width, height))) =~= one);
}

} // verus!
