//! The headers every PDU wears once the channels are open, and the dispatch that says
//! which kind has arrived.
//!
//! A PDU of the logon and the licensing exchange wears a security header, which is two
//! flag fields. Everything after that belongs to a share and wears a share control
//! header instead: its own length, its type, and who sent it. Most are of one type,
//! share data, which has a second header saying what kind of data it is.

use vstd::prelude::*;

use super::wire::{
    cursor, le16, le16_at, le32, le32_at, steps, views, Cursor, Malformed, Reader, Step, Writer,
};

verus! {

/// `SEC_INFO_PKT`: the logon.
pub const INFO_PACKET: u16 = 0x0040;
/// `SEC_LICENSE_PKT`: a step of the licensing exchange.
pub const LICENSE_PACKET: u16 = 0x0080;

/// `PDUTYPE_*`, with the protocol version every one of them carries beside it.
pub const DEMAND_ACTIVE: u16 = 0x0011;
pub const CONFIRM_ACTIVE: u16 = 0x0013;
pub const DEACTIVATE_ALL: u16 = 0x0016;
pub const DATA: u16 = 0x0017;

/// `PDUTYPE2_*`.
pub const CONTROL: u8 = 0x14;
pub const SYNCHRONIZE: u8 = 0x1F;
pub const SAVE_SESSION_INFO: u8 = 0x26;
pub const FONT_LIST: u8 = 0x27;
pub const FONT_MAP: u8 = 0x28;
pub const SET_ERROR_INFO: u8 = 0x2F;
pub const MONITOR_LAYOUT: u8 = 0x37;

/// `STREAM_LOW`, the priority every PDU of a client has.
pub const STREAM: u8 = 1;

/// The share control header, and the share data header after it.
pub const CONTROL_HEADER: usize = 6;
pub const DATA_HEADER: usize = 18;

pub const WHAT: &'static str = "a share PDU";

pub fn write_security_header(w: &mut Writer, flags: u16)
    ensures
        final(w)@ == old(w)@ + le16(flags) + le16(0),
{
    w.u16_le(flags);
    w.u16_le(0);
}

pub open spec fn security_step(c: Cursor) -> Step<u16> {
    match c.u16_le() {
        Step::Stop(e) => Step::Stop(e),
        Step::Got(flags, c) => match c.skip(2) {
            Step::Stop(e) => Step::Stop(e),
            Step::Got(_, c) => Step::Got(flags, c),
        },
    }
}

/// The flags of a security header; the high half of them is never used.
pub fn read_security_header(r: &mut Reader<'_>) -> (res: Result<u16, Malformed>)
    ensures
        steps(res, final(r)@, security_step(old(r)@)),
        final(r)@.within(),
{
    let flags = r.u16_le()?;
    r.skip(2)?;
    Ok(flags)
}

/// A PDU of any type, its length counting the header.
pub open spec fn control_bytes(kind: u16, user: u16, body: Seq<u8>) -> Seq<u8> {
    le16((CONTROL_HEADER + body.len()) as u16) + le16(kind) + le16(user) + body
}

/// The rest of a share data PDU's headers, and its body.
pub open spec fn data_body(kind: u8, share_id: u32, body: Seq<u8>) -> Seq<u8> {
    // Uncompressed, so the length that matters is what follows its own field.
    le32(share_id) + seq![0u8, STREAM] + le16((body.len() + 4) as u16) + seq![kind, 0u8] + le16(0)
        + body
}

/// A share data PDU.
pub open spec fn data_bytes(kind: u8, user: u16, share_id: u32, body: Seq<u8>) -> Seq<u8> {
    control_bytes(DATA, user, data_body(kind, share_id, body))
}

/// A share data PDU, ready for an MCS Send Data Request.
pub fn data(kind: u8, user: u16, share_id: u32, body: &[u8]) -> (pdu: Vec<u8>)
    requires
        body@.len() <= 0xFFFF - DATA_HEADER,
    ensures
        pdu@ == data_bytes(kind, user, share_id, body@),
{
    let mut w = Writer::with_capacity(DATA_HEADER + body.len());
    w.u16_le((DATA_HEADER + body.len()) as u16);
    w.u16_le(DATA);
    w.u16_le(user);
    w.u32_le(share_id);
    w.u8(0);
    w.u8(STREAM);
    w.u16_le((body.len() + 4) as u16);
    w.u8(kind);
    w.u8(0);
    w.u16_le(0);
    w.bytes(body);
    assert(w@ =~= data_bytes(kind, user, share_id, body@));
    w.finish()
}

/// A Confirm Active PDU around its body, ready for an MCS Send Data Request.
pub fn confirm_active(user: u16, body: &[u8]) -> (pdu: Vec<u8>)
    requires
        body@.len() <= 0xFFFF - CONTROL_HEADER,
    ensures
        pdu@ == control_bytes(CONFIRM_ACTIVE, user, body@),
{
    let mut w = Writer::with_capacity(CONTROL_HEADER + body.len());
    w.u16_le((CONTROL_HEADER + body.len()) as u16);
    w.u16_le(CONFIRM_ACTIVE);
    w.u16_le(user);
    w.bytes(body);
    assert(w@ =~= control_bytes(CONFIRM_ACTIVE, user, body@));
    w.finish()
}

/// A share data PDU: what kind of data it is, and the data.
#[derive(Clone, Copy, Debug, PartialEq, Eq)]
pub struct Data<'a> {
    pub kind: u8,
    pub body: &'a [u8],
}

/// A PDU of a share.
#[derive(Clone, Copy, Debug, PartialEq, Eq)]
pub enum Pdu<'a> {
    /// The server opens a share, and says what it can do; with it, the channel the
    /// server said it from.
    DemandActive(u16, &'a [u8]),
    /// The server takes the share down, usually to open another.
    DeactivateAll,
    Data(Data<'a>),
}

/// A [`Pdu`], what it carries by its contents.
pub enum PduView {
    DemandActive(u16, Seq<u8>),
    DeactivateAll,
    Data(u8, Seq<u8>),
}

impl<'a> View for Pdu<'a> {
    type V = PduView;

    open spec fn view(&self) -> PduView {
        match self {
            Pdu::DemandActive(source, body) => PduView::DemandActive(*source, body@),
            Pdu::DeactivateAll => PduView::DeactivateAll,
            Pdu::Data(data) => PduView::Data(data.kind, data.body@),
        }
    }
}

/// What follows the share data header, and what kind it is.
pub open spec fn data_spec(c: Cursor) -> Result<PduView, Malformed> {
    // The share's number, padding, the stream and the uncompressed length.
    match c.skip(8) {
        Step::Stop(e) => Err(e),
        Step::Got(_, c) => match c.u8() {
            Step::Stop(e) => Err(e),
            Step::Got(kind, c) => match c.u8() {
                Step::Stop(e) => Err(e),
                Step::Got(compression, c) => match c.skip(2) {
                    Step::Stop(e) => Err(e),
                    Step::Got(_, c) => if compression != 0 {
                        Err(c.refused("its compression", compression as u64))
                    } else {
                        Ok(PduView::Data(kind, c.rest()))
                    },
                },
            },
        },
    }
}

pub open spec fn decode_spec(payload: Seq<u8>) -> Result<PduView, Malformed> {
    match cursor(WHAT, payload).u16_le() {
        Step::Stop(e) => Err(e),
        Step::Got(length, c) => match c.u16_le() {
            Step::Stop(e) => Err(e),
            Step::Got(kind, c) => if length != payload.len() {
                Err(c.refused("a length other than its own,", length as u64))
            } else if kind == DEACTIVATE_ALL {
                Ok(PduView::DeactivateAll)
            } else {
                match c.u16_le() {
                    Step::Stop(e) => Err(e),
                    Step::Got(source, c) => if kind == DEMAND_ACTIVE {
                        Ok(PduView::DemandActive(source, c.rest()))
                    } else if kind == DATA {
                        data_spec(c)
                    } else {
                        Err(c.refused("its type", kind as u64))
                    },
                }
            },
        },
    }
}

/// Which PDU of a share has arrived.
pub fn decode(payload: &[u8]) -> (res: Result<Pdu<'_>, Malformed>)
    ensures
        views(res, decode_spec(payload@)),
{
    let mut r = Reader::new(WHAT, payload);
    let length = r.u16_le()?;
    let kind = r.u16_le()?;
    if length as usize != payload.len() {
        return Err(r.refuse("a length other than its own,", length as u64));
    }
    if kind == DEACTIVATE_ALL {
        return Ok(Pdu::DeactivateAll);
    }
    let source = r.u16_le()?;
    match kind {
        DEMAND_ACTIVE => Ok(Pdu::DemandActive(source, r.rest())),
        DATA => {
            r.skip(8)?;
            let kind = r.u8()?;
            let compression = r.u8()?;
            r.skip(2)?;
            if compression != 0 {
                return Err(r.refuse("its compression", compression as u64));
            }
            Ok(Pdu::Data(Data { kind, body: r.rest() }))
        },
        other => Err(r.refuse("its type", other as u64)),
    }
}

/// A share data PDU that was written is read as the data it was written with.
pub proof fn data_reads_back(kind: u8, user: u16, share_id: u32, body: Seq<u8>)
    requires
        body.len() <= 0xFFFF - DATA_HEADER,
    ensures
        decode_spec(data_bytes(kind, user, share_id, body)) == Ok::<PduView, Malformed>(
            PduView::Data(kind, body),
        ),
{
    let pdu = data_bytes(kind, user, share_id, body);
    let length = (DATA_HEADER + body.len()) as u16;
    assert(pdu[0] == le16(length)[0]);
    assert(pdu[1] == le16(length)[1]);
    assert(pdu[2] == le16(DATA)[0]);
    assert(pdu[3] == le16(DATA)[1]);
    let inner = data_body(kind, share_id, body);
    assert(inner[8] == kind);
    assert(inner[9] == 0);
    assert(pdu[14] == inner[8]);
    assert(pdu[15] == inner[9]);
    assert(pdu.subrange(18, pdu.len() as int) =~= body);
}

/// A PDU of the share is as long as its first word says, and its second says which it is: the
/// share torn down, the share offered by whoever the third word names, or data of the kind that
/// is further in, where it is not compressed.
pub proof fn a_share_pdu_says_which_it_is(payload: Seq<u8>)
    requires
        payload.len() >= 6,
        le16_at(payload, 0) == payload.len(),
    ensures
        ({
            let (kind, got) = (le16_at(payload, 2), decode_spec(payload));
            if kind == 0x16 {
                got == Ok::<PduView, Malformed>(PduView::DeactivateAll)
            } else if kind == 0x11 {
                got == Ok::<PduView, Malformed>(PduView::DemandActive(le16_at(payload, 4), payload.skip(6)))
            } else if kind == 0x17 && payload.len() >= 18 && payload[15] == 0 {
                got == Ok::<PduView, Malformed>(PduView::Data(payload[14], payload.skip(18)))
            } else {
                got is Err
            }
        }),
{
    let c = cursor(WHAT, payload);
    assert(c.plus(6).rest() =~= payload.skip(6));
    if payload.len() >= 18 {
        assert(c.plus(6).plus(8).plus(1).plus(1).plus(2).rest() =~= payload.skip(18));
    }
}

/// Data that is sent names who sends it and the share it is for, on the share's one stream, and
/// how long it is, all of it and what comes after that.
pub proof fn data_says_where_it_belongs(kind: u8, user: u16, share_id: u32, body: Seq<u8>)
    requires
        body.len() <= 0xFFFF - 18,
    ensures
        ({
            let pdu = data_bytes(kind, user, share_id, body);
            &&& pdu.len() == 18 + body.len()
            &&& le16_at(pdu, 0) == pdu.len() && le16_at(pdu, 2) == 0x17 && le16_at(pdu, 4) == user
            &&& le32_at(pdu, 6) == share_id && pdu[10] == 0 && pdu[11] == 1
            &&& le16_at(pdu, 12) == pdu.len() - 14
            &&& pdu[14] == kind && pdu[15] == 0 && pdu[16] == 0 && pdu[17] == 0
            &&& pdu.skip(18) == body
        }),
{
    let pdu = data_bytes(kind, user, share_id, body);
    let inner = data_body(kind, share_id, body);
    let (l, k, u, s, n) = (
        le16((18 + body.len()) as u16),
        le16(0x17),
        le16(user),
        le32(share_id),
        le16((body.len() + 4) as u16),
    );
    assert(pdu[0] == l[0] && pdu[1] == l[1] && pdu[2] == k[0] && pdu[3] == k[1] && pdu[4] == u[0] && pdu[5] == u[1]);
    assert(inner[0] == s[0] && inner[1] == s[1] && inner[2] == s[2] && inner[3] == s[3]);
    assert(inner[4] == 0 && inner[5] == 1 && inner[6] == n[0] && inner[7] == n[1] && inner[8] == kind && inner[9] == 0);
    assert(inner[10] == 0 && inner[11] == 0);
    assert(forall|i: int| 0 <= i < inner.len() ==> #[trigger] inner[i] == pdu[6 + i]);
    assert(pdu.skip(18) =~= body);
    assert(s[0] + 0x100 * s[1] + 0x1_0000 * s[2] + 0x100_0000 * s[3] == share_id);
}

} // verus!
