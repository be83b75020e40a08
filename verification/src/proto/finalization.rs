//! The four PDUs between a confirmed share and a desktop.
//!
//! Once the capability exchange is done, neither side has sent a pixel. What stands
//! between is a fixed handshake, called connection finalization in [MS-RDPBCGR], in
//! which the client sends four small share data PDUs and the server answers with four
//! of its own:
//!
//! 1. **Synchronize**: nothing of substance; it marks the point both sides count from.
//! 2. **Control (Cooperate)**: this client will share the desktop rather than take it
//!    exclusively.
//! 3. **Control (Request Control)**: and would like to drive it.
//! 4. **Font List**: historically the client's fonts, empty for twenty years, and still
//!    the PDU that means *I am ready*.
//!
//! The server's Font Map is the answer to the last of them, and the moment the share
//! is live: the first update follows it without further ceremony.
//!
//! The four go out together without waiting, because none of them is a question. The
//! server's four come back in its own time, with session PDUs mixed in among them,
//! which is why the reader here takes a PDU at a time and says what it was rather than
//! expecting a fixed order.

use vstd::prelude::*;

use super::desktop;
use super::share::{self, Data};
use super::wire::{cursor, front_faces, le16, le16_at, le32, word_next, Malformed, Reader, Step, Writer};

verus! {

/// `SYNCMSGTYPE_SYNC`, the only message type a Synchronize PDU has.
pub const SYNCHRONIZE_MESSAGE: u16 = 1;

/// `CTRLACTION_*`.
pub const REQUEST_CONTROL: u16 = 1;
pub const GRANTED_CONTROL: u16 = 2;
pub const COOPERATE: u16 = 4;

/// `FONTLIST_FIRST | FONTLIST_LAST`: this is the whole list, such as it is.
pub const WHOLE_LIST: u16 = 0x0003;

/// `entrySize`, which describes entries this client does not send.
pub const FONT_ENTRY: u16 = 0x0032;

pub const CONTROL_PDU: &'static str = "an RDP Control PDU";
pub const ANY_PDU: &'static str = "a share data PDU during connection finalization";

/// What one server PDU during this handshake turned out to be.
#[derive(Clone, Copy, Debug, PartialEq, Eq, Structural)]
pub enum Response {
    /// The server has synchronized.
    Synchronize,
    /// The server is sharing rather than handing over.
    Cooperate,
    /// This client may drive the desktop.
    ControlGranted,
    /// The last of the four: the share is live, and updates follow.
    FontMap,
    /// A PDU of the session rather than of this handshake (who logged on, how the
    /// monitors are arranged), which arrives here because the server does not wait
    /// for the handshake to finish before starting the session.
    Aside,
}

pub open spec fn synchronize_body(user: u16) -> Seq<u8> {
    le16(SYNCHRONIZE_MESSAGE) + le16(user)
}

pub open spec fn control_body(action: u16) -> Seq<u8> {
    le16(action) + le16(0) + le32(0)
}

pub open spec fn font_list_body() -> Seq<u8> {
    le16(0) + le16(0) + le16(WHOLE_LIST) + le16(FONT_ENTRY)
}

/// The four PDUs this client sends, in order, each already framed as a share data
/// PDU on the I/O channel.
pub fn requests(user: u16, share_id: u32) -> (pdus: [Vec<u8>; 4])
    ensures
        pdus@[0]@ == share::data_bytes(share::SYNCHRONIZE, user, share_id, synchronize_body(user)),
        pdus@[1]@ == share::data_bytes(share::CONTROL, user, share_id, control_body(COOPERATE)),
        pdus@[2]@ == share::data_bytes(
            share::CONTROL,
            user,
            share_id,
            control_body(REQUEST_CONTROL),
        ),
        pdus@[3]@ == share::data_bytes(share::FONT_LIST, user, share_id, font_list_body()),
{
    [
        share::data(share::SYNCHRONIZE, user, share_id, synchronize(user).as_slice()),
        share::data(share::CONTROL, user, share_id, control(COOPERATE).as_slice()),
        share::data(share::CONTROL, user, share_id, control(REQUEST_CONTROL).as_slice()),
        share::data(share::FONT_LIST, user, share_id, font_list().as_slice()),
    ]
}

pub open spec fn response_spec(kind: u8, body: Seq<u8>) -> Result<Response, Malformed> {
    if kind == share::SYNCHRONIZE {
        Ok(Response::Synchronize)
    } else if kind == share::CONTROL {
        match cursor(CONTROL_PDU, body).u16_le() {
            Step::Stop(e) => Err(e),
            Step::Got(action, c) => if action == COOPERATE {
                Ok(Response::Cooperate)
            } else if action == GRANTED_CONTROL {
                Ok(Response::ControlGranted)
            } else {
                Err(c.refused("its action", action as u64))
            },
        }
    } else if kind == share::FONT_MAP {
        Ok(Response::FontMap)
    } else if kind == share::SET_ERROR_INFO {
        match desktop::error_info_spec(body) {
            Ok(_) => Ok(Response::Aside),
            Err(e) => Err(e),
        }
    } else if kind == share::SAVE_SESSION_INFO || kind == share::MONITOR_LAYOUT {
        Ok(Response::Aside)
    } else {
        Err(cursor(ANY_PDU, body).refused("its type", kind as u64))
    }
}

/// What one of the server's PDUs was.
///
/// A Set Error Info PDU carrying a real code becomes the error here, because that PDU
/// *is* the server's explanation and there is no better place to turn it into one.
pub fn response(pdu: &Data<'_>) -> (res: Result<Response, Malformed>)
    ensures
        res == response_spec(pdu.kind, pdu.body@),
{
    match pdu.kind {
        share::SYNCHRONIZE => Ok(Response::Synchronize),
        share::CONTROL => {
            let mut r = Reader::new(CONTROL_PDU, pdu.body);
            match r.u16_le()? {
                COOPERATE => Ok(Response::Cooperate),
                GRANTED_CONTROL => Ok(Response::ControlGranted),
                other => Err(r.refuse("its action", other as u64)),
            }
        },
        share::FONT_MAP => Ok(Response::FontMap),
        share::SET_ERROR_INFO => {
            desktop::error_info(pdu.body)?;
            Ok(Response::Aside)
        },
        share::SAVE_SESSION_INFO | share::MONITOR_LAYOUT => Ok(Response::Aside),
        other => {
            let r = Reader::new(ANY_PDU, pdu.body);
            Err(r.refuse("its type", other as u64))
        },
    }
}

fn synchronize(user: u16) -> (body: Vec<u8>)
    ensures
        body@ == synchronize_body(user),
{
    let mut w = Writer::with_capacity(4);
    w.u16_le(SYNCHRONIZE_MESSAGE);
    // The target is this client's own user channel. The field exists because MCS
    // conferences can have more than one user; an RDP session never does.
    w.u16_le(user);
    assert(w@ =~= synchronize_body(user));
    w.finish()
}

fn control(action: u16) -> (body: Vec<u8>)
    ensures
        body@ == control_body(action),
{
    let mut w = Writer::with_capacity(8);
    w.u16_le(action);
    // grantId and controlId, which only a server fills in.
    w.u16_le(0);
    w.u32_le(0);
    assert(w@ =~= control_body(action));
    w.finish()
}

fn font_list() -> (body: Vec<u8>)
    ensures
        body@ == font_list_body(),
{
    let mut w = Writer::with_capacity(8);
    // No fonts, of no fonts in total.
    w.u16_le(0);
    w.u16_le(0);
    w.u16_le(WHOLE_LIST);
    w.u16_le(FONT_ENTRY);
    assert(w@ =~= font_list_body());
    w.finish()
}

/// What a server answers with is told apart by its kind alone, but for a Control PDU, where it
/// is the first word of it: whether it shares, or hands over.
pub proof fn an_answer_is_known_by_its_kind(body: Seq<u8>, rest: Seq<u8>)
    ensures
        response_spec(0x1F, body) == Ok::<Response, Malformed>(Response::Synchronize),
        response_spec(0x28, body) == Ok::<Response, Malformed>(Response::FontMap),
        response_spec(0x14, le16(4) + rest) == Ok::<Response, Malformed>(Response::Cooperate),
        response_spec(0x14, le16(2) + rest) == Ok::<Response, Malformed>(Response::ControlGranted),
        response_spec(0x14, le16(1) + rest) is Err,
        response_spec(0x26, body) == Ok::<Response, Malformed>(Response::Aside),
        response_spec(0x37, body) == Ok::<Response, Malformed>(Response::Aside),
{
    front_faces(CONTROL_PDU, le16(4) + rest);
    word_next(cursor(CONTROL_PDU, le16(4) + rest), 4, rest);
    front_faces(CONTROL_PDU, le16(2) + rest);
    word_next(cursor(CONTROL_PDU, le16(2) + rest), 2, rest);
    front_faces(CONTROL_PDU, le16(1) + rest);
    word_next(cursor(CONTROL_PDU, le16(1) + rest), 1, rest);
}

/// What is asked of a server names this client in the first request, asks to share in the
/// second and to drive in the third, and lists no fonts in the fourth.
pub proof fn what_is_asked_is_what_is_meant(user: u16)
    ensures
        synchronize_body(user).len() == 4,
        le16_at(synchronize_body(user), 0) == 1,
        le16_at(synchronize_body(user), 2) == user,
        control_body(COOPERATE).len() == 8,
        le16_at(control_body(COOPERATE), 0) == 4,
        le16_at(control_body(REQUEST_CONTROL), 0) == 1,
        forall|i: int| 2 <= i < 8 ==> #[trigger] control_body(COOPERATE)[i] == 0,
        forall|i: int| 2 <= i < 8 ==> #[trigger] control_body(REQUEST_CONTROL)[i] == 0,
        font_list_body() == seq![0u8, 0, 0, 0, 3, 0, 0x32, 0],
{
    let b = synchronize_body(user);
    assert(b[0] == le16(1)[0] && b[1] == le16(1)[1] && b[2] == le16(user)[0] && b[3] == le16(user)[1]);
    assert(font_list_body() =~= seq![0u8, 0, 0, 0, 3, 0, 0x32, 0]);
}

} // verus!
