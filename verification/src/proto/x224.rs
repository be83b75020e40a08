//! TPKT framing, the X.224 data TPDU inside it, and the negotiation that decides
//! whether TLS and CredSSP follow.
//!
//! Everything on the slow path is a TPKT frame: a version, a reserved byte and the
//! length of the whole frame, big-endian. Past the connection sequence what it holds is
//! always the same three-byte X.224 data header and then a PDU of [`super::mcs`].

use vstd::prelude::*;
use vstd::utf8::encode_utf8;

use super::wire::{
    be16, be16_at, cursor, le32, le32_at, steps, views, Cursor, Malformed, Reader, Step, Writer,
};
use crate::text;

verus! {

/// How many bytes of a frame say how long it is.
pub const TPKT_HEADER: usize = 4;

pub const TPKT_VERSION: u8 = 3;

/// The TPKT header and the X.224 data header together.
pub const DATA_HEADER: usize = 7;

/// The X.224 codes this client meets.
pub const CONNECTION_REQUEST: u8 = 0xE0;
pub const CONNECTION_CONFIRM: u8 = 0xD0;
pub const DATA: u8 = 0xF0;
pub const END_OF_TRANSMISSION: u8 = 0x80;

/// The negotiation structures a confirm may end with.
pub const NEGOTIATION_REQUEST: u8 = 1;
pub const NEGOTIATION_RESPONSE: u8 = 2;
pub const NEGOTIATION_FAILURE: u8 = 3;

pub const FRAME: &'static str = "a TPKT frame";
pub const CONFIRM: &'static str = "an X.224 Connection Confirm";

/// A PDU of this many bytes does not fit the frame it was meant for.
#[derive(Clone, Copy, Debug, PartialEq, Eq)]
pub struct TooLong(pub usize);

impl TooLong {
    pub fn to_string(&self) -> (s: String)
        ensures
            s@ == "a PDU of "@ + text::decimal(self.0 as nat) + " bytes does not fit one frame"@,
    {
        let mut s = String::new();
        s.append("a PDU of ");
        text::push_decimal(&mut s, self.0 as u64);
        s.append(" bytes does not fit one frame");
        assert(s@ =~= "a PDU of "@ + text::decimal(self.0 as nat) + " bytes does not fit one frame"@);
        s
    }
}

/// A whole frame around a PDU.
pub open spec fn data_bytes(payload: Seq<u8>) -> Seq<u8> {
    seq![TPKT_VERSION, 0u8] + be16((DATA_HEADER + payload.len()) as u16) + seq![
        2u8,
        DATA,
        END_OF_TRANSMISSION,
    ] + payload
}

/// An X.224 data TPDU in a TPKT frame, which is what every PDU past the negotiation
/// travels in.
pub fn data(payload: &[u8]) -> (res: Result<Vec<u8>, TooLong>)
    ensures
        match res {
            Ok(frame) => payload@.len() <= 0xFFFF - DATA_HEADER && frame@ == data_bytes(payload@),
            Err(e) => payload@.len() > 0xFFFF - DATA_HEADER && e == TooLong(payload@.len() as usize),
        },
{
    if payload.len() > 0xFFFF - DATA_HEADER {
        return Err(TooLong(payload.len()));
    }
    let mut w = Writer::with_capacity(DATA_HEADER + payload.len());
    w.u8(TPKT_VERSION);
    w.u8(0);
    w.u16_be((DATA_HEADER + payload.len()) as u16);
    w.u8(2);
    w.u8(DATA);
    w.u8(END_OF_TRANSMISSION);
    w.bytes(payload);
    assert(w@ =~= data_bytes(payload@));
    Ok(w.finish())
}

/// How long a frame says it is.
pub open spec fn frame_length_spec(header: Seq<u8>) -> Result<usize, Malformed> {
    let c = cursor(FRAME, header);
    let length = be16_at(header, 2);
    if header[0] != TPKT_VERSION {
        Err(c.refused("a version", header[0] as u64))
    } else if length < TPKT_HEADER {
        Err(c.refused("a length shorter than its header", length as u64))
    } else {
        Ok(length as usize)
    }
}

/// How long the frame that starts with this header is, header and all.
pub fn frame_length(header: &[u8; 4]) -> (res: Result<usize, Malformed>)
    ensures
        res == frame_length_spec(header@),
{
    if header[0] != TPKT_VERSION {
        return Err(Malformed::Refused { what: FRAME, field: "a version", value: header[0] as u64 });
    }
    let length: usize = header[2] as usize * 0x100 + header[3] as usize;
    if length < TPKT_HEADER {
        return Err(
            Malformed::Refused {
                what: FRAME,
                field: "a length shorter than its header",
                value: length as u64,
            },
        );
    }
    Ok(length)
}

/// The TPKT header of a frame that is whole, which leaves the reader at what it holds.
pub open spec fn tpkt_step(c: Cursor) -> Step<()> {
    match c.u8() {
        Step::Stop(e) => Step::Stop(e),
        Step::Got(version, c) => if version != TPKT_VERSION {
            Step::Stop(c.refused("a version", version as u64))
        } else {
            match c.skip(1) {
                Step::Stop(e) => Step::Stop(e),
                Step::Got(_, c) => match c.u16_be() {
                    Step::Stop(e) => Step::Stop(e),
                    Step::Got(length, c) => if length != c.bytes.len() {
                        Step::Stop(c.refused("a length other than its own,", length as u64))
                    } else {
                        Step::Got((), c)
                    },
                },
            }
        },
    }
}

fn tpkt(r: &mut Reader<'_>, frame: &[u8]) -> (res: Result<(), Malformed>)
    requires
        old(r)@.bytes == frame@,
    ensures
        steps(res, final(r)@, tpkt_step(old(r)@)),
        final(r)@.within(),
{
    let version = r.u8()?;
    if version != TPKT_VERSION {
        return Err(r.refuse("a version", version as u64));
    }
    r.skip(1)?;
    let length = r.u16_be()?;
    if length as usize != frame.len() {
        return Err(r.refuse("a length other than its own,", length as u64));
    }
    Ok(())
}

/// The PDU inside a frame of X.224 data.
pub open spec fn data_payload_spec(frame: Seq<u8>) -> Result<Seq<u8>, Malformed> {
    match tpkt_step(cursor(FRAME, frame)) {
        Step::Stop(e) => Err(e),
        Step::Got(_, c) => match c.bytes(3) {
            Step::Stop(e) => Err(e),
            Step::Got(header, c) => if header[0] != 2 {
                Err(c.refused("an X.224 header length", header[0] as u64))
            } else if header[1] != DATA {
                Err(c.refused("an X.224 code", header[1] as u64))
            } else if header[2] != END_OF_TRANSMISSION {
                Err(c.refused("an X.224 fragment", header[2] as u64))
            } else {
                Ok(c.rest())
            },
        },
    }
}

/// The PDU inside a frame of X.224 data.
pub fn data_payload(frame: &[u8]) -> (res: Result<&[u8], Malformed>)
    ensures
        views(res, data_payload_spec(frame@)),
{
    let mut r = Reader::new(FRAME, frame);
    tpkt(&mut r, frame)?;
    let header = r.bytes(3)?;
    if header[0] != 2 {
        return Err(r.refuse("an X.224 header length", header[0] as u64));
    }
    if header[1] != DATA {
        return Err(r.refuse("an X.224 code", header[1] as u64));
    }
    if header[2] != END_OF_TRANSMISSION {
        return Err(r.refuse("an X.224 fragment", header[2] as u64));
    }
    Ok(r.rest())
}

/// What a PDU was framed with comes off again, and the frame's own header says how
/// long it is.
pub proof fn a_frame_gives_back_its_payload(payload: Seq<u8>)
    requires
        payload.len() <= 0xFFFF - DATA_HEADER,
    ensures
        data_payload_spec(data_bytes(payload)) == Ok::<Seq<u8>, Malformed>(payload),
        frame_length_spec(data_bytes(payload).take(4)) == Ok::<usize, Malformed>(
            data_bytes(payload).len() as usize,
        ),
{
    let frame = data_bytes(payload);
    let length = (DATA_HEADER + payload.len()) as u16;
    assert(frame[2] == be16(length)[0]);
    assert(frame[3] == be16(length)[1]);
    assert(frame.subrange(7, frame.len() as int) =~= payload);
}

/// Which security a connection is to have.
#[derive(Clone, Copy, Debug, PartialEq, Eq)]
pub struct Security(pub u32);

impl Security {
    /// TLS, with the credentials checked first.
    pub fn hybrid() -> (security: Security)
        ensures
            security == Security(2),
    {
        Security(2)
    }

    pub fn bits(self) -> (bits: u32)
        ensures
            bits == self.0,
    {
        self.0
    }
}

/// The first thing a client says: who it is, and which security it would have.
pub struct ConnectionRequest<'a> {
    pub cookie: Option<&'a str>,
    pub protocols: Security,
}

/// The routing token a load balancer reads, which names the user.
pub open spec fn cookie_bytes(cookie: Option<&str>) -> Seq<u8> {
    match cookie {
        // Cookie: mstshash=
        Some(name) => seq![
            0x43u8, 0x6F, 0x6F, 0x6B, 0x69, 0x65, 0x3A, 0x20,
            0x6D, 0x73, 0x74, 0x73, 0x68, 0x61, 0x73, 0x68, 0x3D,
        ] + encode_utf8(name@) + seq![0x0Du8, 0x0A],
        None => seq![],
    }
}

impl<'a> ConnectionRequest<'a> {
    pub open spec fn bytes(&self) -> Seq<u8> {
        let cookie = cookie_bytes(self.cookie);
        seq![TPKT_VERSION, 0u8] + be16((19 + cookie.len()) as u16) + seq![
            (14 + cookie.len()) as u8,
            CONNECTION_REQUEST,
            0u8,
            0u8,
            0u8,
            0u8,
            0u8,
        ] + cookie + seq![NEGOTIATION_REQUEST, 0u8, 8u8, 0u8] + le32(self.protocols.0)
    }

    /// The whole frame, unless the cookie is too long for X.224's one-byte header length.
    pub fn encode(&self) -> (res: Result<Vec<u8>, TooLong>)
        ensures
            match res {
                Ok(frame) => cookie_bytes(self.cookie).len() <= 240 && frame@ == self.bytes(),
                Err(e) => cookie_bytes(self.cookie).len() > 240 && e == TooLong(
                    encode_utf8(self.cookie->0@).len() as usize,
                ),
            },
    {
        let mut cookie = Writer::new();
        if let Some(name) = self.cookie {
            let name = name.as_bytes();
            if name.len() > 240 - 19 {
                return Err(TooLong(name.len()));
            }
            let mut w = Writer::new();
            w.bytes(
                &[
                    0x43u8, 0x6F, 0x6F, 0x6B, 0x69, 0x65, 0x3A, 0x20,
                    0x6D, 0x73, 0x74, 0x73, 0x68, 0x61, 0x73, 0x68, 0x3D,
                ],
            );
            w.bytes(name);
            w.bytes(&[0x0Du8, 0x0A]);
            cookie = w;
            assert(cookie@ =~= cookie_bytes(self.cookie));
        }
        assert(cookie@ =~= cookie_bytes(self.cookie));
        let cookie = cookie.finish();
        let mut w = Writer::with_capacity(19 + cookie.len());
        w.u8(TPKT_VERSION);
        w.u8(0);
        w.u16_be((19 + cookie.len()) as u16);
        w.u8((14 + cookie.len()) as u8);
        w.u8(CONNECTION_REQUEST);
        w.zeros(5);
        w.bytes(cookie.as_slice());
        w.u8(NEGOTIATION_REQUEST);
        w.u8(0);
        w.u16_le(8);
        w.u32_le(self.protocols.0);
        assert(w@ =~= self.bytes());
        Ok(w.finish())
    }
}

/// What the server answered the negotiation with.
#[derive(Clone, Copy, Debug, PartialEq, Eq)]
pub enum ConnectionConfirm {
    /// The security the server chose.
    Negotiated { protocol: Security, flags: u8 },
    /// A server that does not negotiate, which is one that wants legacy security.
    Unnegotiated,
    /// The server will not have any of what was offered, for this reason.
    Refused(u32),
}

/// The negotiation structure a confirm ends with, or the fault in it.
pub open spec fn negotiation_spec(c: Cursor) -> Result<ConnectionConfirm, Malformed> {
    match c.u8() {
        Step::Stop(e) => Err(e),
        Step::Got(kind, c) => match c.u8() {
            Step::Stop(e) => Err(e),
            Step::Got(flags, c) => match c.u16_le() {
                Step::Stop(e) => Err(e),
                Step::Got(length, c) => match c.u32_le() {
                    Step::Stop(e) => Err(e),
                    Step::Got(value, c) => if length != 8 {
                        Err(c.refused("a negotiation length", length as u64))
                    } else if kind == NEGOTIATION_RESPONSE {
                        Ok(ConnectionConfirm::Negotiated { protocol: Security(value), flags })
                    } else if kind == NEGOTIATION_FAILURE {
                        Ok(ConnectionConfirm::Refused(value))
                    } else {
                        Err(c.refused("a negotiation type", kind as u64))
                    },
                },
            },
        },
    }
}

impl ConnectionConfirm {
    pub open spec fn decode_spec(frame: Seq<u8>) -> Result<ConnectionConfirm, Malformed> {
        match tpkt_step(cursor(CONFIRM, frame)) {
            Step::Stop(e) => Err(e),
            Step::Got(_, c) => match c.bytes(7) {
                Step::Stop(e) => Err(e),
                Step::Got(header, c) => if header[1] != CONNECTION_CONFIRM {
                    Err(c.refused("an X.224 code", header[1] as u64))
                } else if c.left() == 0 {
                    Ok(ConnectionConfirm::Unnegotiated)
                } else {
                    negotiation_spec(c)
                },
            },
        }
    }

    pub fn decode(frame: &[u8]) -> (res: Result<ConnectionConfirm, Malformed>)
        ensures
            res == Self::decode_spec(frame@),
    {
        let mut r = Reader::new(CONFIRM, frame);
        tpkt(&mut r, frame)?;
        let header = r.bytes(7)?;
        if header[1] != CONNECTION_CONFIRM {
            return Err(r.refuse("an X.224 code", header[1] as u64));
        }
        if r.is_empty() {
            return Ok(ConnectionConfirm::Unnegotiated);
        }
        let kind = r.u8()?;
        let flags = r.u8()?;
        let length = r.u16_le()?;
        let value = r.u32_le()?;
        if length != 8 {
            return Err(r.refuse("a negotiation length", length as u64));
        }
        match kind {
            NEGOTIATION_RESPONSE => Ok(
                ConnectionConfirm::Negotiated { protocol: Security(value), flags },
            ),
            NEGOTIATION_FAILURE => Ok(ConnectionConfirm::Refused(value)),
            other => Err(r.refuse("a negotiation type", other as u64)),
        }
    }
}

/// A connection request announces its own length, to the frame's reader and to X.224's.
pub proof fn a_request_measures_itself(request: ConnectionRequest<'_>)
    requires
        cookie_bytes(request.cookie).len() <= 240,
    ensures
        frame_length_spec(request.bytes().take(4)) == Ok::<usize, Malformed>(request.bytes().len() as usize),
        request.bytes()[4] == request.bytes().len() - 5,
{
}

/// A confirm is a frame as long as it says, and what it ends with says whether one protocol was
/// chosen, and under which flags, or none would do, and why; where it ends with nothing, nothing
/// was negotiated.
pub proof fn a_confirm_says_what_was_chosen(frame: Seq<u8>)
    requires
        frame.len() >= 11,
        frame[0] == 3,
        256 * frame[2] + frame[3] == frame.len(),
        frame[5] == 0xD0,
    ensures
        ({
            let answer = ConnectionConfirm::decode_spec(frame);
            let value = le32_at(frame, 15);
            if frame.len() == 11 {
                answer == Ok::<ConnectionConfirm, Malformed>(ConnectionConfirm::Unnegotiated)
            } else if frame.len() < 19 || frame[13] != 8 || frame[14] != 0 {
                answer is Err
            } else if frame[11] == 2 {
                answer == Ok::<ConnectionConfirm, Malformed>(
                    ConnectionConfirm::Negotiated { protocol: Security(value), flags: frame[12] },
                )
            } else if frame[11] == 3 {
                answer == Ok::<ConnectionConfirm, Malformed>(ConnectionConfirm::Refused(value))
            } else {
                answer is Err
            }
        }),
{
    assert(be16_at(frame, 2) == frame.len());
    let c = cursor(CONFIRM, frame).plus(11);
    assert(frame.subrange(4, 11)[1] == frame[5]);
    if frame.len() >= 19 {
        assert(c.plus(1).plus(1) == c.plus(2) && c.plus(2).plus(2) == c.plus(4));
    }
}

} // verus!
