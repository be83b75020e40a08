//! T.125 MCS: the channels every later PDU travels on.
//!
//! MCS is a conferencing protocol RDP borrowed whole. Its model is a domain that
//! users attach to and channels that users join, and RDP uses exactly one domain, one
//! user, and a handful of channels: the I/O channel that carries the desktop, and one
//! per static virtual channel. Everything after this module's work is done is an MCS
//! Send Data PDU addressed to one of those channels.
//!
//! Getting there is a fixed sequence, and each step is a round trip:
//!
//! 1. **Connect-Initial / Connect-Response**: the domain parameters, wrapped around
//!    the GCC conference. This is the one that matters: the server's answer carries the
//!    channel numbers.
//! 2. **Erect Domain Request**: announces this client is the top of a domain of one.
//!    Unanswered.
//! 3. **Attach User Request / Confirm**: gets the user identifier that addresses
//!    every PDU from here on.
//! 4. **Channel Join Request / Confirm**, once per channel, the user's own too.
//!
//! The connect PDUs are BER ([`super::der`]) and everything after them is PER
//! ([`super::per`]), because T.125 defines the first two that way and the rest the
//! other.
//!
//! Every function in this module takes or returns a whole TPKT frame, so a caller
//! reads a frame off the socket and hands it over without unwrapping anything.

use vstd::prelude::*;

use super::wire::{
    be16, cursor, facing, facing_both, steps, views, Cursor, Malformed, Reader, Step, Writer,
};
use super::x224::{self, TooLong};
use super::{der, per};
use crate::text;

verus! {

/// The lower bound MCS gives user identifiers. A user is written on the wire as the
/// distance from it, and a channel is not: see [`per::write_integer16`].
pub const BASE_USER: u16 = 1001;

/// `Connect-Initial`, `[APPLICATION 101]`.
pub const CONNECT_INITIAL: u8 = 101;
/// `Connect-Response`, `[APPLICATION 102]`.
pub const CONNECT_RESPONSE: u8 = 102;

/// The domain selectors, which identify the domain among several on one connection.
/// RDP has one domain, so both ends write the same single byte and neither reads it.
pub const DOMAIN_SELECTOR: u8 = 0x01;

/// `DomainMCSPDU` CHOICE indices. The index is written in the top six bits of a byte,
/// leaving the bottom two for whichever OPTIONAL fields the PDU has.
pub const ERECT_DOMAIN_REQUEST: u8 = 1;
pub const DISCONNECT_PROVIDER_ULTIMATUM: u8 = 8;
pub const ATTACH_USER_REQUEST: u8 = 10;
pub const ATTACH_USER_CONFIRM: u8 = 11;
pub const CHANNEL_JOIN_REQUEST: u8 = 14;
pub const CHANNEL_JOIN_CONFIRM: u8 = 15;
pub const SEND_DATA_REQUEST: u8 = 25;
pub const SEND_DATA_INDICATION: u8 = 26;

/// `dataPriority` high, `segmentation` both first and last: the only combination RDP
/// ever sends, because RDP does its own chunking above MCS.
pub const WHOLE_HIGH_PRIORITY: u8 = 0x70;

/// The most a Send Data payload can be, which is what PER's length field holds.
pub const MAX_SEND_DATA: usize = 0x7FFF;

pub const RESPONSE: &'static str = "an MCS Connect-Response";
pub const ATTACHED: &'static str = "an MCS Attach User Confirm";
pub const JOINED: &'static str = "an MCS Channel Join Confirm";
pub const INDICATION: &'static str = "an MCS Send Data Indication";

/// `DomainParameters`, which both ends use to agree on the size of the domain.
///
/// Three of these go out (what is wanted, the least that would do, the most that
/// could be used) and the server picks. Nothing in this client varies with the
/// answer, so the values are the ones every RDP client has sent for twenty years and
/// the response's copy is read past.
pub struct DomainParameters {
    pub max_channel_ids: u32,
    pub max_user_ids: u32,
    pub max_token_ids: u32,
    pub max_mcs_pdu_size: u32,
}

impl DomainParameters {
    pub open spec fn spec_target() -> DomainParameters {
        DomainParameters {
            max_channel_ids: 34,
            max_user_ids: 2,
            max_token_ids: 0,
            max_mcs_pdu_size: 0xFFFF,
        }
    }

    pub fn target() -> (p: DomainParameters)
        ensures
            p == Self::spec_target(),
    {
        DomainParameters {
            max_channel_ids: 34,
            max_user_ids: 2,
            max_token_ids: 0,
            max_mcs_pdu_size: 0xFFFF,
        }
    }

    pub open spec fn spec_minimum() -> DomainParameters {
        DomainParameters {
            max_channel_ids: 1,
            max_user_ids: 1,
            max_token_ids: 1,
            max_mcs_pdu_size: 0x420,
        }
    }

    pub fn minimum() -> (p: DomainParameters)
        ensures
            p == Self::spec_minimum(),
    {
        DomainParameters {
            max_channel_ids: 1,
            max_user_ids: 1,
            max_token_ids: 1,
            max_mcs_pdu_size: 0x420,
        }
    }

    pub open spec fn spec_maximum() -> DomainParameters {
        DomainParameters {
            max_channel_ids: 0xFFFF,
            max_user_ids: 0xFC17,
            max_token_ids: 0xFFFF,
            max_mcs_pdu_size: 0xFFFF,
        }
    }

    pub fn maximum() -> (p: DomainParameters)
        ensures
            p == Self::spec_maximum(),
    {
        DomainParameters {
            max_channel_ids: 0xFFFF,
            max_user_ids: 0xFC17,
            max_token_ids: 0xFFFF,
            max_mcs_pdu_size: 0xFFFF,
        }
    }

    pub open spec fn contents(&self) -> Seq<u8> {
        der::integer_bytes(self.max_channel_ids) + der::integer_bytes(self.max_user_ids)
            + der::integer_bytes(self.max_token_ids)
            + der::integer_bytes(1)  // numPriorities
            + der::integer_bytes(0)  // minThroughput
            + der::integer_bytes(1)  // maxHeight
            + der::integer_bytes(self.max_mcs_pdu_size) + der::integer_bytes(2)  // protocolVersion
    }

    pub open spec fn bytes(&self) -> Seq<u8> {
        der::value_bytes(der::SEQUENCE, self.contents())
    }

    pub fn write(&self, w: &mut Writer)
        ensures
            final(w)@ == old(w)@ + self.bytes(),
    {
        let mut fields = Writer::with_capacity(32);
        der::write_integer(&mut fields, self.max_channel_ids);
        der::write_integer(&mut fields, self.max_user_ids);
        der::write_integer(&mut fields, self.max_token_ids);
        der::write_integer(&mut fields, 1); // numPriorities
        der::write_integer(&mut fields, 0); // minThroughput
        der::write_integer(&mut fields, 1); // maxHeight
        der::write_integer(&mut fields, self.max_mcs_pdu_size);
        der::write_integer(&mut fields, 2); // protocolVersion
        assert(fields@ =~= self.contents());
        let fields = fields.finish();
        der::write_tag(w, der::SEQUENCE, fields.len());
        w.bytes(fields.as_slice());
        assert(w@ =~= old(w)@ + self.bytes());
    }
}

/// What a Connect-Initial says before the conference it carries, and the conference.
pub open spec fn connect_initial_body(conference: Seq<u8>) -> Seq<u8> {
    der::value_bytes(der::OCTET_STRING, seq![DOMAIN_SELECTOR])  // callingDomainSelector
        + der::value_bytes(der::OCTET_STRING, seq![DOMAIN_SELECTOR])  // calledDomainSelector
        + der::boolean_bytes(true)  // upwardFlag: this client is the top
        + DomainParameters::spec_target().bytes() + DomainParameters::spec_minimum().bytes()
        + DomainParameters::spec_maximum().bytes() + der::value_bytes(
        der::OCTET_STRING,
        conference,
    )  // userData

}

pub open spec fn connect_initial_pdu(conference: Seq<u8>) -> Seq<u8> {
    let body = connect_initial_body(conference);
    seq![der::APPLICATION, CONNECT_INITIAL] + der::length_bytes(body.len()) + body
}

/// Whether a frame was made of a PDU, or refused for the PDU's length.
pub open spec fn framed(res: Result<Vec<u8>, TooLong>, pdu: Seq<u8>) -> bool {
    match res {
        Ok(frame) => pdu.len() <= 0xFFFF - x224::DATA_HEADER && frame@ == x224::data_bytes(pdu),
        Err(e) => pdu.len() > 0xFFFF - x224::DATA_HEADER && e == TooLong(pdu.len() as usize),
    }
}

/// An MCS Connect-Initial carrying a GCC Conference Create Request.
pub fn connect_initial(conference: &[u8]) -> (res: Result<Vec<u8>, TooLong>)
    ensures
        framed(res, connect_initial_pdu(conference@)),
{
    let mut body = Writer::new();
    der::write_octet_string(&mut body, &[DOMAIN_SELECTOR]); // callingDomainSelector
    der::write_octet_string(&mut body, &[DOMAIN_SELECTOR]); // calledDomainSelector
    der::write_boolean(&mut body, true); // upwardFlag: this client is the top
    DomainParameters::target().write(&mut body);
    DomainParameters::minimum().write(&mut body);
    DomainParameters::maximum().write(&mut body);
    der::write_octet_string(&mut body, conference); // userData
    assert([DOMAIN_SELECTOR]@ =~= seq![DOMAIN_SELECTOR]);
    assert(body@ =~= connect_initial_body(conference@));
    let body = body.finish();

    let mut w = Writer::new();
    der::write_application_tag(&mut w, CONNECT_INITIAL, body.len());
    w.bytes(body.as_slice());
    assert(w@ =~= connect_initial_pdu(conference@));
    let pdu = w.finish();
    x224::data(pdu.as_slice())
}

pub open spec fn connect_response_spec(frame: Seq<u8>) -> Result<Seq<u8>, Malformed> {
    match x224::data_payload_spec(frame) {
        Err(e) => Err(e),
        Ok(payload) => match der::application_step(cursor(RESPONSE, payload), CONNECT_RESPONSE) {
            Step::Stop(e) => Err(e),
            Step::Got(fields, _) => match der::enumerated_step(cursor(RESPONSE, fields)) {
                Step::Stop(e) => Err(e),
                Step::Got(result, c) => if result != 0 {
                    Err(c.refused("a refusal to connect, MCS result", result as u64))
                } else {
                    match der::integer_step(c) {
                        Step::Stop(e) => Err(e),
                        Step::Got(_, c) => match der::skip_step(c) {
                            Step::Stop(e) => Err(e),
                            Step::Got(_, c) => match der::expect_step(c, der::OCTET_STRING) {
                                Step::Stop(e) => Err(e),
                                Step::Got(conference, _) => Ok(conference),
                            },
                        },
                    }
                },
            },
        },
    }
}

/// The GCC Conference Create Response inside an MCS Connect-Response.
pub fn connect_response(frame: &[u8]) -> (res: Result<&[u8], Malformed>)
    ensures
        views(res, connect_response_spec(frame@)),
{
    let mut r = Reader::new(RESPONSE, x224::data_payload(frame)?);
    let mut fields = Reader::new(RESPONSE, der::expect_application(&mut r, CONNECT_RESPONSE)?);

    let result = der::read_enumerated(&mut fields)?;
    if result != 0 {
        return Err(fields.refuse("a refusal to connect, MCS result", result as u64));
    }
    der::read_integer(&mut fields)?; // calledConnectId, which nothing addresses
    der::skip(&mut fields)?; // domainParameters: the server's answer, which changes nothing
    der::expect(&mut fields, der::OCTET_STRING)
}

/// A whole TPKT frame around a PDU that is a handful of bytes.
fn frame(pdu: &[u8]) -> (frame: Vec<u8>)
    requires
        pdu@.len() <= 0xFFFF - x224::DATA_HEADER,
    ensures
        frame@ == x224::data_bytes(pdu@),
{
    match x224::data(pdu) {
        Ok(frame) => frame,
        Err(_) => Vec::new(),
    }
}

/// An Erect Domain Request. The server does not answer it.
pub fn erect_domain_request() -> (frame: Vec<u8>)
    ensures
        frame@ == x224::data_bytes(
            seq![4u8] + per::integer_bytes(0)  // subHeight: no sub-domains below this client
                + per::integer_bytes(0)  // subInterval
            ,
        ),
{
    let mut w = Writer::with_capacity(5);
    w.u8(ERECT_DOMAIN_REQUEST * 4);
    per::write_integer(&mut w, 0); // subHeight: no sub-domains below this client
    per::write_integer(&mut w, 0); // subInterval
    let pdu = w.finish();
    assert(pdu@ =~= seq![4u8] + per::integer_bytes(0) + per::integer_bytes(0));
    frame(pdu.as_slice())
}

/// An Attach User Request, which is the CHOICE byte and nothing else.
pub fn attach_user_request() -> (frame: Vec<u8>)
    ensures
        frame@ == x224::data_bytes(seq![40u8]),
{
    let pdu = [ATTACH_USER_REQUEST * 4];
    assert(pdu@ =~= seq![40u8]);
    frame(&pdu)
}

/// The reason, if the PDU that starts here is a Disconnect Provider Ultimatum.
///
/// The reason is a three-bit ENUMERATED straddling the CHOICE byte and the next,
/// which is PER packing bits rather than bytes for once.
pub open spec fn ultimatum_spec(what: &'static str, payload: Seq<u8>) -> Result<
    Option<Reason>,
    Malformed,
> {
    match cursor(what, payload).u8() {
        Step::Stop(e) => Err(e),
        Step::Got(choice, c) => if choice / 4 != DISCONNECT_PROVIDER_ULTIMATUM {
            Ok(None)
        } else {
            match c.u8() {
                Step::Stop(e) => Err(e),
                Step::Got(second, _) => Ok(
                    Some(Reason((choice % 4 * 2 + second / 0x80) as u8)),
                ),
            }
        },
    }
}

pub fn ultimatum(what: &'static str, payload: &[u8]) -> (res: Result<Option<Reason>, Malformed>)
    ensures
        res == ultimatum_spec(what, payload@),
{
    let mut r = Reader::new(what, payload);
    let choice = r.u8()?;
    if choice / 4 != DISCONNECT_PROVIDER_ULTIMATUM {
        return Ok(None);
    }
    let second = r.u8()?;
    Ok(Some(Reason(choice % 4 * 2 + second / 0x80)))
}

/// The start of a domain PDU of the expected kind. The one other thing a server may
/// answer with is turned into a sentence.
pub open spec fn domain_pdu_step(what: &'static str, frame: Seq<u8>, expected: u8) -> Step<()> {
    match x224::data_payload_spec(frame) {
        Err(e) => Step::Stop(e),
        Ok(payload) => match cursor(what, payload).u8() {
            Step::Stop(e) => Step::Stop(e),
            Step::Got(choice, c) => if choice / 4 == expected {
                Step::Got((), c)
            } else {
                match ultimatum_spec(what, payload) {
                    Err(e) => Step::Stop(e),
                    Ok(Some(reason)) => Step::Stop(
                        c.refused(
                            "a Disconnect Provider Ultimatum instead, whose reason is",
                            reason.0 as u64,
                        ),
                    ),
                    Ok(None) => Step::Stop(c.refused("an MCS PDU type", (choice / 4) as u64)),
                }
            },
        },
    }
}

fn domain_pdu<'a>(what: &'static str, frame: &'a [u8], expected: u8) -> (res: Result<
    Reader<'a>,
    Malformed,
>)
    ensures
        match res {
            Ok(r) => domain_pdu_step(what, frame@, expected) == Step::Got((), r@),
            Err(e) => domain_pdu_step(what, frame@, expected) == Step::<()>::Stop(e),
        },
{
    let payload = x224::data_payload(frame)?;
    let mut r = Reader::new(what, payload);
    let choice = r.u8()?;
    let found: u8 = choice / 4;
    if found == expected {
        return Ok(r);
    }
    if let Some(reason) = ultimatum(what, payload)? {
        let field = "a Disconnect Provider Ultimatum instead, whose reason is";
        return Err(Malformed::Refused { what, field, value: reason.0 as u64 });
    }
    Err(r.refuse("an MCS PDU type", found as u64))
}

/// The `result` field both confirms start with.
pub open spec fn result_step(c: Cursor) -> Step<()> {
    match c.u8() {
        Step::Stop(e) => Step::Stop(e),
        Step::Got(result, c) => if result == 0 {
            Step::Got((), c)
        } else {
            Step::Stop(c.refused("an unsuccessful MCS result", result as u64))
        },
    }
}

fn result(r: &mut Reader<'_>) -> (res: Result<(), Malformed>)
    ensures
        steps(res, final(r)@, result_step(old(r)@)),
        final(r)@.within(),
{
    match r.u8()? {
        0 => Ok(()),
        other => Err(r.refuse("an unsuccessful MCS result", other as u64)),
    }
}

pub open spec fn attach_user_confirm_spec(frame: Seq<u8>) -> Result<u16, Malformed> {
    match domain_pdu_step(ATTACHED, frame, ATTACH_USER_CONFIRM) {
        Step::Stop(e) => Err(e),
        Step::Got(_, c) => match result_step(c) {
            Step::Stop(e) => Err(e),
            // `initiator` is OPTIONAL, and a successful confirm always carries it: it is
            // the only thing the PDU is for.
            Step::Got(_, c) => match per::integer16_step(c, BASE_USER) {
                Step::Stop(e) => Err(e),
                Step::Got(user, _) => Ok(user),
            },
        },
    }
}

/// The user identifier the server assigned, out of an Attach User Confirm.
pub fn attach_user_confirm(bytes: &[u8]) -> (res: Result<u16, Malformed>)
    ensures
        res == attach_user_confirm_spec(bytes@),
        res matches Ok(user) ==> user >= BASE_USER,
{
    let mut r = domain_pdu(ATTACHED, bytes, ATTACH_USER_CONFIRM)?;
    result(&mut r)?;
    per::read_integer16(&mut r, BASE_USER)
}

pub open spec fn channel_join_request_pdu(user: u16, channel: u16) -> Seq<u8> {
    seq![56u8] + be16((user - BASE_USER) as u16)  // initiator
        + be16(channel)  // channelId

}

/// A Channel Join Request for one channel. The user's own channel is joined the same
/// way as any other, and first.
pub fn channel_join_request(user: u16, channel: u16) -> (frame: Vec<u8>)
    requires
        user >= BASE_USER,
    ensures
        frame@ == x224::data_bytes(channel_join_request_pdu(user, channel)),
{
    let mut w = Writer::with_capacity(5);
    w.u8(CHANNEL_JOIN_REQUEST * 4);
    per::write_integer16(&mut w, user, BASE_USER); // initiator
    per::write_integer16(&mut w, channel, 0); // channelId
    let pdu = w.finish();
    assert(pdu@ =~= channel_join_request_pdu(user, channel));
    frame(pdu.as_slice())
}

pub open spec fn channel_join_confirm_spec(frame: Seq<u8>) -> Result<u16, Malformed> {
    match domain_pdu_step(JOINED, frame, CHANNEL_JOIN_CONFIRM) {
        Step::Stop(e) => Err(e),
        Step::Got(_, c) => match result_step(c) {
            Step::Stop(e) => Err(e),
            // initiator, which is this client
            Step::Got(_, c) => match per::integer16_step(c, BASE_USER) {
                Step::Stop(e) => Err(e),
                // requested, which is what we asked for
                Step::Got(_, c) => match per::integer16_step(c, 0) {
                    Step::Stop(e) => Err(e),
                    Step::Got(_, c) => match per::integer16_step(c, 0) {
                        Step::Stop(e) => Err(e),
                        Step::Got(channel, _) => Ok(channel),
                    },
                },
            },
        },
    }
}

/// The channel that was joined, out of a Channel Join Confirm.
///
/// A server may join a client to a different channel than it asked for, which is why
/// the number comes back rather than being assumed.
pub fn channel_join_confirm(bytes: &[u8]) -> (res: Result<u16, Malformed>)
    ensures
        res == channel_join_confirm_spec(bytes@),
{
    let mut r = domain_pdu(JOINED, bytes, CHANNEL_JOIN_CONFIRM)?;
    result(&mut r)?;
    per::read_integer16(&mut r, BASE_USER)?; // initiator, which is this client
    per::read_integer16(&mut r, 0)?; // requested, which is what we asked for
    per::read_integer16(&mut r, 0)
}

/// A Send Data PDU, whichever side sends it.
pub open spec fn send_data_pdu(choice: u8, user: u16, channel: u16, payload: Seq<u8>) -> Seq<u8> {
    seq![(choice * 4) as u8] + be16((user - BASE_USER) as u16)  // initiator
        + be16(channel)  // channelId
        + seq![WHOLE_HIGH_PRIORITY] + per::length_bytes(payload.len() as u16) + payload
}

/// A Send Data Request: everything the client says after the connection sequence,
/// addressed to one channel.
pub fn send_data_request(user: u16, channel: u16, payload: &[u8]) -> (res: Result<Vec<u8>, TooLong>)
    requires
        user >= BASE_USER,
    ensures
        match res {
            Ok(frame) => payload@.len() <= MAX_SEND_DATA && frame@ == x224::data_bytes(
                send_data_pdu(SEND_DATA_REQUEST, user, channel, payload@),
            ),
            Err(e) => payload@.len() > MAX_SEND_DATA && e == TooLong(payload@.len() as usize),
        },
{
    if payload.len() > MAX_SEND_DATA {
        return Err(TooLong(payload.len()));
    }
    let mut w = Writer::with_capacity(payload.len() + 8);
    w.u8(SEND_DATA_REQUEST * 4);
    per::write_integer16(&mut w, user, BASE_USER); // initiator
    per::write_integer16(&mut w, channel, 0); // channelId
    w.u8(WHOLE_HIGH_PRIORITY);
    per::write_length(&mut w, payload.len() as u16);
    w.bytes(payload);
    let pdu = w.finish();
    assert(pdu@ =~= send_data_pdu(SEND_DATA_REQUEST, user, channel, payload@));
    x224::data(pdu.as_slice())
}

/// Leaving the conference for a reason.
pub open spec fn ultimatum_pdu(reason: Reason) -> Seq<u8> {
    seq![
        (DISCONNECT_PROVIDER_ULTIMATUM * 4 + reason.0 / 2 % 4) as u8,
        (reason.0 % 2 * 0x80) as u8,
    ]
}

/// Leave the conference, which is how a client that meant to disconnect says so: the
/// server keeps the session logged on for whoever connects next, rather than tearing
/// it down as it would for a socket that simply stopped answering.
pub fn disconnect_provider_ultimatum(reason: Reason) -> (frame: Vec<u8>)
    ensures
        frame@ == x224::data_bytes(ultimatum_pdu(reason)),
{
    let reason_code: u8 = reason.0;
    let mut w = Writer::with_capacity(2);
    w.u8(DISCONNECT_PROVIDER_ULTIMATUM * 4 + reason_code / 2 % 4);
    w.u8(reason_code % 2 * 0x80);
    let pdu = w.finish();
    assert(pdu@ =~= ultimatum_pdu(reason));
    frame(pdu.as_slice())
}

/// Why a conference ended, in the MCS `Reason` both ends write.
#[derive(Clone, Copy, Debug, PartialEq, Eq)]
pub struct Reason(pub u8);

impl Reason {
    /// The one this client sends: the person is done, and the session stays on the
    /// host for their next connection.
    pub fn user_requested() -> (reason: Reason)
        ensures
            reason == Reason(3),
    {
        Reason(3)
    }

    /// Whether an ultimatum that arrived means an orderly end rather than a fault. A
    /// server hanging up on purpose, and a client that asked to leave, are the two
    /// that do.
    pub fn is_orderly(self) -> (orderly: bool)
        ensures
            orderly == (self.0 == 1 || self.0 == 3),
    {
        self.0 == 1 || self.0 == 3
    }

    pub open spec fn description(self) -> &'static str {
        if self.0 == 0 {
            "the domain was disconnected"
        } else if self.0 == 1 {
            "the host disconnected the session"
        } else if self.0 == 2 {
            "a token was purged"
        } else if self.0 == 3 {
            "the session was disconnected at the user's request"
        } else if self.0 == 4 {
            "a channel was purged"
        } else {
            "for a reason this client has no name for"
        }
    }

    pub fn describe(self) -> (text: &'static str)
        ensures
            text == self.description(),
    {
        match self.0 {
            0 => "the domain was disconnected",
            1 => "the host disconnected the session",
            2 => "a token was purged",
            3 => "the session was disconnected at the user's request",
            4 => "a channel was purged",
            _ => "for a reason this client has no name for",
        }
    }

    pub open spec fn text(self) -> Seq<char> {
        self.description()@ + " ("@ + text::decimal(self.0 as nat) + ")"@
    }

    pub fn to_string(&self) -> (s: String)
        ensures
            s@ == self.text(),
    {
        let mut s = String::new();
        s.append(self.describe());
        s.append(" (");
        text::push_decimal(&mut s, self.0 as u64);
        s.append(")");
        assert(s@ =~= self.text());
        s
    }
}

/// One channel's worth of what the server said.
#[derive(Clone, Copy, Debug, PartialEq, Eq)]
pub struct SendData<'a> {
    pub channel: u16,
    pub payload: &'a [u8],
}

/// What arrived on the connection once the conference is up.
#[derive(Clone, Copy, Debug, PartialEq, Eq)]
pub enum Indication<'a> {
    /// A PDU addressed to a channel.
    Data(SendData<'a>),
    /// The server left the conference. Every session ends with one of these, from
    /// one end or the other.
    Disconnect(Reason),
}

/// An [`Indication`], the payload by its contents.
pub enum IndicationView {
    Data(u16, Seq<u8>),
    Disconnect(Reason),
}

impl<'a> View for Indication<'a> {
    type V = IndicationView;

    open spec fn view(&self) -> IndicationView {
        match self {
            Indication::Data(data) => IndicationView::Data(data.channel, data.payload@),
            Indication::Disconnect(reason) => IndicationView::Disconnect(*reason),
        }
    }
}

pub open spec fn send_data_indication_spec(frame: Seq<u8>) -> Result<IndicationView, Malformed> {
    match x224::data_payload_spec(frame) {
        Err(e) => Err(e),
        Ok(payload) => match ultimatum_spec(INDICATION, payload) {
            Err(e) => Err(e),
            Ok(Some(reason)) => Ok(IndicationView::Disconnect(reason)),
            Ok(None) => match domain_pdu_step(INDICATION, frame, SEND_DATA_INDICATION) {
                Step::Stop(e) => Err(e),
                // initiator, which is the server
                Step::Got(_, c) => match per::integer16_step(c, BASE_USER) {
                    Step::Stop(e) => Err(e),
                    Step::Got(_, c) => match per::integer16_step(c, 0) {
                        Step::Stop(e) => Err(e),
                        // dataPriority and segmentation, which RDP never splits
                        Step::Got(channel, c) => match c.u8() {
                            Step::Stop(e) => Err(e),
                            Step::Got(_, c) => match per::octet_string_step(c, 0) {
                                Step::Stop(e) => Err(e),
                                Step::Got(data, _) => Ok(IndicationView::Data(channel, data)),
                            },
                        },
                    },
                },
            },
        },
    }
}

/// A Send Data Indication: everything the server says after the connection sequence,
/// and the one other PDU it may send instead, which is not an error here, unlike in
/// the middle of the connection sequence, because it is how a session ends.
pub fn send_data_indication(frame: &[u8]) -> (res: Result<Indication<'_>, Malformed>)
    ensures
        views(res, send_data_indication_spec(frame@)),
{
    let payload = x224::data_payload(frame)?;
    if let Some(reason) = ultimatum(INDICATION, payload)? {
        return Ok(Indication::Disconnect(reason));
    }
    let mut r = domain_pdu(INDICATION, frame, SEND_DATA_INDICATION)?;
    per::read_integer16(&mut r, BASE_USER)?; // initiator, which is the server
    let channel = per::read_integer16(&mut r, 0)?;
    r.u8()?; // dataPriority and segmentation, which RDP never splits
    let payload = per::read_octet_string(&mut r, 0)?;
    Ok(Indication::Data(SendData { channel, payload }))
}

/// What either side sends on a channel arrives on that channel, whole.
#[verifier::rlimit(60)]
pub proof fn send_data_arrives(user: u16, channel: u16, payload: Seq<u8>)
    requires
        user >= BASE_USER,
        payload.len() <= MAX_SEND_DATA,
    ensures
        send_data_indication_spec(
            x224::data_bytes(send_data_pdu(SEND_DATA_INDICATION, user, channel, payload)),
        ) == Ok::<IndicationView, Malformed>(IndicationView::Data(channel, payload)),
{
    let pdu = send_data_pdu(SEND_DATA_INDICATION, user, channel, payload);
    x224::a_frame_gives_back_its_payload(pdu);
    let head = seq![104u8];
    let initiator = be16((user - BASE_USER) as u16);
    let number = be16(channel);
    let priority = seq![WHOLE_HIGH_PRIORITY];
    let length = per::length_bytes(payload.len() as u16);
    let c = cursor(INDICATION, pdu);
    assert(pdu.subrange(0, pdu.len() as int) =~= pdu);
    facing_both(c, head + initiator + number + priority + length, payload);
    facing_both(c, head + initiator + number + priority, length);
    facing_both(c, head + initiator + number, priority);
    facing_both(c, head + initiator, number);
    facing_both(c, head, initiator);
    per::an_identifier_reads_back(c.plus(1), user, BASE_USER);
    assert(c.plus(1).plus(2) == c.plus(3));
    per::an_identifier_reads_back(c.plus(3), channel, 0);
    assert(c.plus(3).plus(2) == c.plus(5));
    facing(c.plus(5), priority);
    assert(c.plus(5).plus(1) == c.plus(6));
    per::a_length_reads_back(c.plus(6), payload.len() as u16);
}

/// Leaving the conference is written and read the same way.
pub proof fn an_ultimatum_reads_back(what: &'static str, reason: Reason)
    requires
        reason.0 < 8,
    ensures
        ultimatum_spec(what, ultimatum_pdu(reason)) == Ok::<Option<Reason>, Malformed>(Some(reason)),
        send_data_indication_spec(x224::data_bytes(ultimatum_pdu(reason))) == Ok::<
            IndicationView,
            Malformed,
        >(IndicationView::Disconnect(reason)),
{
    x224::a_frame_gives_back_its_payload(ultimatum_pdu(reason));
}

/// A user is attached under the number a confirm gives, counted from 1001, where it says that it
/// went well.
pub proof fn a_confirm_names_its_user(frame: Seq<u8>, payload: Seq<u8>)
    requires
        x224::data_payload_spec(frame) == Ok::<Seq<u8>, Malformed>(payload),
        payload.len() >= 4,
        payload[0] as int / 4 == 11,
        256 * payload[2] + payload[3] + 1001 <= 0xFFFF,
    ensures
        attach_user_confirm_spec(frame) is Ok <==> payload[1] == 0,
        attach_user_confirm_spec(frame) matches Ok(user) ==> user == 1001 + 256 * payload[2] + payload[3],
{
}

/// A channel is joined under the number a confirm ends with, where it says that it went well: not
/// the number it says was asked for.
pub proof fn a_confirm_names_its_channel(frame: Seq<u8>, payload: Seq<u8>)
    requires
        x224::data_payload_spec(frame) == Ok::<Seq<u8>, Malformed>(payload),
        payload.len() >= 8,
        payload[0] as int / 4 == 15,
        256 * payload[2] + payload[3] + 1001 <= 0xFFFF,
    ensures
        channel_join_confirm_spec(frame) is Ok <==> payload[1] == 0,
        channel_join_confirm_spec(frame) matches Ok(channel) ==> channel == 256 * payload[6] + payload[7],
{
}

/// A request to join names who asks, counted from 1001, and then the channel; and what is sent
/// names them the same way.
pub proof fn a_request_names_its_user_and_channel(user: u16, channel: u16, payload: Seq<u8>)
    requires
        user >= 1001,
        payload.len() <= 0x3FFF,
    ensures
        ({
            let join = channel_join_request_pdu(user, channel);
            &&& join.len() == 5 && join[0] == 56
            &&& 1001 + 256 * join[1] + join[2] == user && 256 * join[3] + join[4] == channel
        }),
        ({
            let sent = send_data_pdu(25, user, channel, payload);
            &&& sent[0] == 100 && sent[5] == 0x70
            &&& 1001 + 256 * sent[1] + sent[2] == user && 256 * sent[3] + sent[4] == channel
            &&& sent.subrange(sent.len() - payload.len(), sent.len() as int) == payload
        }),
{
    let (u, c) = (be16((user - 1001) as u16), be16(channel));
    let join = channel_join_request_pdu(user, channel);
    assert(join[1] == u[0] && join[2] == u[1] && join[3] == c[0] && join[4] == c[1]);
    let sent = send_data_pdu(25, user, channel, payload);
    assert(sent[1] == u[0] && sent[2] == u[1] && sent[3] == c[0] && sent[4] == c[1]);
    assert(sent.subrange(sent.len() - payload.len(), sent.len() as int) =~= payload);
}

} // verus!
