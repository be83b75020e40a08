//! Everything between a socket and a desktop.
//!
//! One long sequence, and every step of it is a question the host answers before the next
//! may be asked: the security negotiation, the TLS session, the credentials, the channels,
//! the logon, the licence, the capabilities, and the four PDUs that say the share is live.
//! [`crate::proto`] is each PDU; this is the order they go in.
//!
//! The socket is the caller's. [`opening`] is the first thing to say on it and
//! [`negotiated`] reads the answer; once the TLS session is up and the credentials have
//! been taken, [`conference`] opens the conference and [`Handshake::advance`] is given
//! every frame that comes back and says what is sent next, until the share is live.

use vstd::prelude::*;
use vstd::utf8::is_ascii_chars_encode_utf8;

use crate::proto::capabilities::{ConfirmActive, DemandActive};
use crate::proto::fastpath;
use crate::proto::finalization::{self, Response};
use crate::proto::gcc::{Channel, ConferenceCreateRequest, ConferenceCreateResponse, ResponseView};
use crate::proto::info::{Address, ClientInfo};
use crate::proto::license;
use crate::proto::mcs::{self, Reason};
use crate::proto::share::{self, Pdu, PduView};
use crate::proto::wire::{copy, views, Malformed};
use crate::proto::x224::{self, ConnectionConfirm, ConnectionRequest, Security, TooLong};
use crate::text::{decimal, push_decimal, same_text};

verus! {

/// The keyboard layout the session is opened with: US English, which every Windows host
/// has. It says nothing about which keys arrive (a scancode is a position on a keyboard,
/// and the host maps it with the layout the *session* is using), so this is bookkeeping
/// the server keeps rather than anything input depends on.
pub const KEYBOARD_LAYOUT: u32 = 0x0409;

/// What this end calls itself in the host's session list.
pub const CLIENT_NAME: &'static str = "remotex";

/// What a session is opened with.
#[derive(Clone, Copy)]
pub struct Connect<'a> {
    pub username: &'a str,
    pub password: &'a str,
    /// The NetBIOS domain, when the target names one.
    pub domain: Option<&'a str>,
    pub width: u32,
    pub height: u32,
    /// Whether the desktop follows the window it is shown in.
    pub resize: bool,
    /// Whether to offer the graphics pipeline.
    pub egfx: bool,
    pub clipboard: bool,
    pub audio: bool,
}

/// Why no session came of it.
#[derive(Clone, Copy, Debug, PartialEq, Eq)]
pub enum ConnectError {
    /// A PDU that could not be read, or that reports a refusal.
    Malformed(Malformed),
    /// A PDU that does not fit its frame.
    TooLong(TooLong),
    /// The host chose other security than NLA.
    NotNla(Security),
    /// The host offered no security negotiation.
    Unnegotiated,
    /// The host refused the connection, for this reason.
    Refused(u32),
    /// The host numbered more or fewer channels than were asked for.
    Numbered { numbered: usize, asked: usize },
    /// The host joined another channel than was asked for.
    Joined { joined: u16, asked: u16 },
    /// The host sent a PDU on another channel than was expected.
    Elsewhere { sent: u16, expected: u16 },
    /// The host ended the connection before the desktop was ready.
    Ended(Reason),
    /// The host did not demand a share once licensing was done.
    NoShare,
    /// The host deactivated the share during connection finalization.
    Deactivated,
}

impl ConnectError {
    /// The error in words, of a host by this name.
    pub open spec fn text(self, host: Seq<char>) -> Seq<char> {
        match self {
            ConnectError::Malformed(e) => e.text(),
            ConnectError::TooLong(e) => "a PDU of "@ + decimal(e.0 as nat) + " bytes does not fit one frame"@,
            ConnectError::NotNla(protocol) => host + " chose Security("@ + decimal(protocol.0 as nat)
                + "), and this client speaks only NLA"@,
            ConnectError::Unnegotiated => host
                + " offered no security negotiation, and this client speaks only NLA"@,
            ConnectError::Refused(why) => host + " refused the connection: "@ + decimal(why as nat),
            ConnectError::Numbered { numbered, asked } => "the host numbered "@ + decimal(numbered as nat)
                + " channels, and "@ + decimal(asked as nat) + " were asked for"@,
            ConnectError::Joined { joined, asked } => "the host joined channel "@ + decimal(joined as nat)
                + " where "@ + decimal(asked as nat) + " was asked for"@,
            ConnectError::Elsewhere { sent, expected } => "the host sent a PDU on channel "@ + decimal(
                sent as nat,
            ) + ", where "@ + decimal(expected as nat) + " was expected"@,
            ConnectError::Ended(reason) => "the host ended the connection before the desktop was ready: "@
                + reason.text(),
            ConnectError::NoShare => "the host did not demand a share once licensing was done"@,
            ConnectError::Deactivated => "the host deactivated the share during connection finalization"@,
        }
    }

    pub fn to_string(&self, host: &str) -> (s: String)
        ensures
            s@ == self.text(host@),
    {
        let mut s = String::new();
        match self {
            ConnectError::Malformed(e) => s.append(e.to_string().as_str()),
            ConnectError::TooLong(e) => s.append(e.to_string().as_str()),
            ConnectError::NotNla(protocol) => {
                s.append(host);
                s.append(" chose Security(");
                push_decimal(&mut s, protocol.0 as u64);
                s.append("), and this client speaks only NLA");
            },
            ConnectError::Unnegotiated => {
                s.append(host);
                s.append(" offered no security negotiation, and this client speaks only NLA");
            },
            ConnectError::Refused(why) => {
                s.append(host);
                s.append(" refused the connection: ");
                push_decimal(&mut s, *why as u64);
            },
            ConnectError::Numbered { numbered, asked } => {
                s.append("the host numbered ");
                push_decimal(&mut s, *numbered as u64);
                s.append(" channels, and ");
                push_decimal(&mut s, *asked as u64);
                s.append(" were asked for");
            },
            ConnectError::Joined { joined, asked } => {
                s.append("the host joined channel ");
                push_decimal(&mut s, *joined as u64);
                s.append(" where ");
                push_decimal(&mut s, *asked as u64);
                s.append(" was asked for");
            },
            ConnectError::Elsewhere { sent, expected } => {
                s.append("the host sent a PDU on channel ");
                push_decimal(&mut s, *sent as u64);
                s.append(", where ");
                push_decimal(&mut s, *expected as u64);
                s.append(" was expected");
            },
            ConnectError::Ended(reason) => {
                s.append("the host ended the connection before the desktop was ready: ");
                s.append(reason.to_string().as_str());
            },
            ConnectError::NoShare => {
                s.append("the host did not demand a share once licensing was done");
            },
            ConnectError::Deactivated => {
                s.append("the host deactivated the share during connection finalization");
            },
        }
        assert(s@ =~= self.text(host@));
        s
    }
}

pub open spec fn dynamic() -> Channel {
    Channel { name: "drdynvc", options: crate::proto::gcc::CHANNEL_OPTIONS }
}

pub open spec fn clipboard() -> Channel {
    Channel { name: "cliprdr", options: crate::proto::gcc::SHOWN_OPTIONS }
}

pub open spec fn audio() -> Channel {
    Channel { name: "rdpsnd", options: crate::proto::gcc::CHANNEL_OPTIONS }
}

pub open spec fn devices() -> Channel {
    Channel { name: "rdpdr", options: crate::proto::gcc::CHANNEL_OPTIONS }
}

/// The static virtual channels a session asks for, in the order it asks for them.
pub open spec fn wanted(config: Connect<'_>) -> Seq<Channel> {
    (if config.resize || config.egfx { seq![dynamic()] } else { seq![] }) + (if config.clipboard {
        seq![clipboard()]
    } else {
        seq![]
    }) + (if config.audio { seq![audio(), devices()] } else { seq![] })
}

/// The static virtual channels a session asks for, each one a capability the caller turned
/// on: [`Channel::dynamic`] is the transport Display Control and the graphics pipeline
/// both ride on, and [`Channel::clipboard`] is MS-RDPECLIP itself. A session that wants
/// none of them asks for no channel at all.
///
/// The order is what makes the server's answer readable: `SC_NET` numbers the channels in
/// the order `CS_NET` named them and says nothing else about which is which, so the
/// numbers are paired back up with the names: see [`Connected::channel`].
pub fn wanted_channels(config: &Connect<'_>) -> (channels: Vec<Channel>)
    ensures
        channels@ == wanted(*config),
{
    let mut channels: Vec<Channel> = Vec::new();
    if config.resize || config.egfx {
        channels.push(Channel::dynamic());
    }
    if config.clipboard {
        channels.push(Channel::clipboard());
    }
    if config.audio {
        // Both, because a Windows host redirects sound only to a client that named device
        // redirection too: see [`crate::proto::rdpdr`].
        channels.push(Channel::audio());
        channels.push(Channel::devices());
    }
    assert(channels@ =~= wanted(*config));
    channels
}

proof fn wanted_channels_are_named(config: Connect<'_>)
    ensures
        forall|i: int| 0 <= i < wanted(config).len() ==> (#[trigger] wanted(config)[i]).named(),
        wanted(config).len() <= 4,
{
    reveal_strlit("drdynvc");
    reveal_strlit("cliprdr");
    reveal_strlit("rdpsnd");
    reveal_strlit("rdpdr");
    is_ascii_chars_encode_utf8("drdynvc"@);
    is_ascii_chars_encode_utf8("cliprdr"@);
    is_ascii_chars_encode_utf8("rdpsnd"@);
    is_ascii_chars_encode_utf8("rdpdr"@);
}

/// A desktop dimension in the 16 bits the protocol counts in, saturating rather than
/// wrapping: nothing real exceeds RDP's own 8192 a side.
pub fn narrow(v: u32) -> (n: u16)
    ensures
        n == if v > u16::MAX { u16::MAX as u32 } else { v },
{
    if v > u16::MAX as u32 { u16::MAX } else { v as u16 }
}

pub open spec fn narrowed(v: u32) -> u16 {
    if v > u16::MAX { u16::MAX } else { v as u16 }
}

/// The first thing said: the security negotiation, in the clear. Only NLA is offered, so
/// only NLA can be chosen.
pub fn opening(config: &Connect<'_>) -> (res: Result<Vec<u8>, ConnectError>)
    ensures
        ({
            let request = ConnectionRequest { cookie: Some(config.username), protocols: Security(2) };
            let len = vstd::utf8::encode_utf8(config.username@).len();
            match res {
                Ok(frame) => x224::cookie_bytes(request.cookie).len() <= 240 && frame@ == request.bytes(),
                Err(e) => x224::cookie_bytes(request.cookie).len() > 240 && e == ConnectError::TooLong(
                    TooLong(len as usize),
                ),
            }
        }),
{
    let request = ConnectionRequest { cookie: Some(config.username), protocols: Security::hybrid() };
    match request.encode() {
        Ok(frame) => Ok(frame),
        Err(e) => Err(ConnectError::TooLong(e)),
    }
}

/// What the answer to the negotiation amounts to.
pub open spec fn negotiated_spec(frame: Seq<u8>) -> Result<Security, ConnectError> {
    match ConnectionConfirm::decode_spec(frame) {
        Err(e) => Err(ConnectError::Malformed(e)),
        Ok(ConnectionConfirm::Negotiated { protocol, .. }) => if protocol == Security(2) {
            Ok(protocol)
        } else {
            Err(ConnectError::NotNla(protocol))
        },
        Ok(ConnectionConfirm::Unnegotiated) => Err(ConnectError::Unnegotiated),
        Ok(ConnectionConfirm::Refused(why)) => Err(ConnectError::Refused(why)),
    }
}

/// The security the host chose, which has to be the one that was offered.
pub fn negotiated(frame: &[u8]) -> (res: Result<Security, ConnectError>)
    ensures
        res == negotiated_spec(frame@),
{
    match ConnectionConfirm::decode(frame) {
        Err(e) => Err(ConnectError::Malformed(e)),
        Ok(ConnectionConfirm::Negotiated { protocol, .. }) => if protocol.0 == 2 {
            Ok(protocol)
        } else {
            Err(ConnectError::NotNla(protocol))
        },
        // A server that answers without negotiation data wants the legacy RDP security
        // this client does not implement, which is the same refusal.
        Ok(ConnectionConfirm::Unnegotiated) => Err(ConnectError::Unnegotiated),
        Ok(ConnectionConfirm::Refused(why)) => Err(ConnectError::Refused(why)),
    }
}

/// The conference a session asks for, channels by their contents.
pub open spec fn asks_for(request: ConferenceCreateRequest<'_>, config: Connect<'_>, protocol: Security) -> bool {
    &&& request.width == narrowed(config.width)
    &&& request.height == narrowed(config.height)
    &&& request.client_name == CLIENT_NAME
    &&& request.keyboard_layout == KEYBOARD_LAYOUT
    &&& request.selected_protocol == protocol.0
    &&& request.channels@ == wanted(config)
    &&& request.graphics == config.egfx
}

/// The MCS Connect-Initial, carrying the GCC conference. The answer numbers every channel
/// the session will use.
pub fn conference(config: &Connect<'_>, protocol: Security) -> (res: Result<Vec<u8>, ConnectError>)
    ensures
        exists|request: ConferenceCreateRequest<'_>|
            {
                &&& asks_for(request, *config, protocol)
                &&& match res {
                    Ok(frame) => mcs::framed(Ok(frame), #[trigger] mcs::connect_initial_pdu(request.bytes())),
                    Err(ConnectError::TooLong(e)) => mcs::framed(
                        Err(e),
                        mcs::connect_initial_pdu(request.bytes()),
                    ),
                    Err(_) => false,
                }
            },
{
    let channels = wanted_channels(config);
    proof {
        wanted_channels_are_named(*config);
    }
    let request = ConferenceCreateRequest {
        width: narrow(config.width),
        height: narrow(config.height),
        client_name: CLIENT_NAME,
        keyboard_layout: KEYBOARD_LAYOUT,
        selected_protocol: protocol.bits(),
        channels: channels.as_slice(),
        graphics: config.egfx,
    };
    let bytes = request.encode();
    assert(asks_for(request, *config, protocol));
    match mcs::connect_initial(bytes.as_slice()) {
        Ok(frame) => {
            assert(mcs::framed(Ok(frame), mcs::connect_initial_pdu(request.bytes())));
            Ok(frame)
        },
        Err(e) => {
            assert(mcs::framed(Err(e), mcs::connect_initial_pdu(request.bytes())));
            Err(ConnectError::TooLong(e))
        },
    }
}

/// What is waited for.
#[derive(Clone, Copy, Debug, PartialEq, Eq)]
pub enum Stage {
    /// The MCS Connect-Response, which numbers the channels.
    Conferring,
    /// The MCS Attach User Confirm.
    Attaching,
    /// The MCS Channel Join Confirm of this one of the channels to join.
    Joining(usize),
    /// Licensing, which on most hosts is one PDU saying there is none.
    Licensing,
    /// The Demand Active PDU.
    Demanding,
    /// The last of the server's four finalization PDUs.
    Activating,
    /// Nothing: the share is live.
    Live,
}

/// The connection sequence, from the conference on.
pub struct Handshake {
    stage: Stage,
    channels: Vec<u16>,
    io_channel: u16,
    user: u16,
    demand: Option<DemandActive>,
    deferred: Vec<(u16, Vec<u8>)>,
}

/// A [`Handshake`] by its contents.
pub struct HandshakeView {
    pub stage: Stage,
    /// The numbers of the channels that were asked for.
    pub channels: Seq<u16>,
    pub io_channel: u16,
    pub user: u16,
    pub demand: Option<DemandActive>,
    pub deferred: Seq<(u16, Seq<u8>)>,
}

/// PDUs by their contents.
pub open spec fn contents(deferred: Seq<(u16, Vec<u8>)>) -> Seq<(u16, Seq<u8>)> {
    Seq::new(deferred.len(), |i: int| (deferred[i].0, deferred[i].1@))
}

impl View for Handshake {
    type V = HandshakeView;

    closed spec fn view(&self) -> HandshakeView {
        HandshakeView {
            stage: self.stage,
            channels: self.channels@,
            io_channel: self.io_channel,
            user: self.user,
            demand: self.demand,
            deferred: contents(self.deferred@),
        }
    }
}

impl HandshakeView {
    /// Once attached there is a user, once demanded a share, and the channel being joined
    /// is one of those there are to join.
    pub open spec fn wf(self) -> bool {
        match self.stage {
            Stage::Conferring => true,
            Stage::Attaching => self.channels.len() <= 4,
            Stage::Joining(at) => at < self.channels.len() + 2 && self.channels.len() <= 4 && self.user
                >= mcs::BASE_USER,
            Stage::Licensing => self.user >= mcs::BASE_USER,
            Stage::Demanding => self.user >= mcs::BASE_USER,
            Stage::Activating => self.user >= mcs::BASE_USER && self.demand is Some,
            Stage::Live => self.user >= mcs::BASE_USER && self.demand is Some,
        }
    }

    pub open spec fn start() -> HandshakeView {
        HandshakeView {
            stage: Stage::Conferring,
            channels: seq![],
            io_channel: 0,
            user: 0,
            demand: None,
            deferred: seq![],
        }
    }

    /// Every channel to join, the user's own first.
    pub open spec fn to_join(self) -> Seq<u16> {
        seq![self.user, self.io_channel] + self.channels
    }

    pub open spec fn at(self, stage: Stage) -> HandshakeView {
        HandshakeView { stage, ..self }
    }
}

/// The payload of a frame, which has to be a PDU on this channel.
pub open spec fn payload_spec(frame: Seq<u8>, channel: u16) -> Result<Seq<u8>, ConnectError> {
    match mcs::send_data_indication_spec(frame) {
        Err(e) => Err(ConnectError::Malformed(e)),
        Ok(mcs::IndicationView::Data(sent, payload)) => if sent == channel {
            Ok(payload)
        } else {
            Err(ConnectError::Elsewhere { sent, expected: channel })
        },
        Ok(mcs::IndicationView::Disconnect(reason)) => Err(ConnectError::Ended(reason)),
    }
}

/// One PDU in, off the channel it was expected on.
pub fn payload_on(frame: &[u8], channel: u16) -> (res: Result<&[u8], ConnectError>)
    ensures
        match payload_spec(frame@, channel) {
            Ok(payload) => res matches Ok(got) && got@ == payload,
            Err(e) => res matches Err(got) && got == e,
        },
{
    match mcs::send_data_indication(frame) {
        Err(e) => Err(ConnectError::Malformed(e)),
        Ok(mcs::Indication::Data(data)) => if data.channel == channel {
            Ok(data.payload)
        } else {
            Err(ConnectError::Elsewhere { sent: data.channel, expected: channel })
        },
        Ok(mcs::Indication::Disconnect(reason)) => Err(ConnectError::Ended(reason)),
    }
}

/// A PDU as it goes out, addressed to a channel.
pub open spec fn sent_bytes(user: u16, channel: u16, pdu: Seq<u8>) -> Seq<u8> {
    x224::data_bytes(mcs::send_data_pdu(mcs::SEND_DATA_REQUEST, user, channel, pdu))
}

pub open spec fn erect_bytes() -> Seq<u8> {
    x224::data_bytes(
        seq![4u8] + crate::proto::per::integer_bytes(0) + crate::proto::per::integer_bytes(0),
    )
}

pub open spec fn attach_bytes() -> Seq<u8> {
    x224::data_bytes(seq![40u8])
}

pub open spec fn join_bytes(user: u16, channel: u16) -> Seq<u8> {
    x224::data_bytes(mcs::channel_join_request_pdu(user, channel))
}

/// The logon. The credentials went through CredSSP already; this says to use them rather
/// than to show a logon screen.
pub open spec fn logon<'a>(config: Connect<'a>, address: Address<'a>) -> ClientInfo<'a> {
    ClientInfo {
        username: config.username,
        password: config.password,
        domain: config.domain,
        address,
        audio: config.audio,
    }
}

/// The logon as it goes out, unless it is too long for its PDU or its frame.
pub open spec fn logon_spec(config: Connect<'_>, address: Address<'_>, user: u16, io_channel: u16) -> Result<
    Seq<u8>,
    ConnectError,
> {
    let info = logon(config, address);
    if info.total() > crate::proto::info::MAX_TOTAL {
        Err(ConnectError::TooLong(TooLong(info.total() as usize)))
    } else if info.bytes().len() > mcs::MAX_SEND_DATA {
        Err(ConnectError::TooLong(TooLong(info.bytes().len() as usize)))
    } else {
        Ok(sent_bytes(user, io_channel, info.bytes()))
    }
}

/// What this client answers a demanded share with.
pub open spec fn confirming(demand: DemandActive) -> ConfirmActive {
    ConfirmActive {
        share_id: demand.share_id,
        width: demand.width,
        height: demand.height,
        keyboard_layout: KEYBOARD_LAYOUT,
        multifragment: demand.multifragment,
    }
}

/// Everything that is sent for a Demand Active: the capabilities, and the four PDUs that
/// make the share live.
pub open spec fn activation_bytes(user: u16, io_channel: u16, demand: DemandActive) -> Seq<Seq<u8>> {
    let id = demand.share_id;
    seq![
        sent_bytes(
            user,
            io_channel,
            share::control_bytes(share::CONFIRM_ACTIVE, user, confirming(demand).bytes()),
        ),
        sent_bytes(
            user,
            io_channel,
            share::data_bytes(share::SYNCHRONIZE, user, id, finalization::synchronize_body(user)),
        ),
        sent_bytes(
            user,
            io_channel,
            share::data_bytes(
                share::CONTROL,
                user,
                id,
                finalization::control_body(finalization::COOPERATE),
            ),
        ),
        sent_bytes(
            user,
            io_channel,
            share::data_bytes(
                share::CONTROL,
                user,
                id,
                finalization::control_body(finalization::REQUEST_CONTROL),
            ),
        ),
        sent_bytes(
            user,
            io_channel,
            share::data_bytes(share::FONT_LIST, user, id, finalization::font_list_body()),
        ),
    ]
}

/// What a frame means while the share is being finalized.
#[derive(Debug, PartialEq, Eq)]
pub enum Settling {
    /// More is to come.
    Waiting,
    /// A PDU on a static virtual channel, which the session will want.
    Deferred(u16, Vec<u8>),
    /// The share is live.
    Live,
}

/// A [`Settling`] by its contents.
pub enum SettlingView {
    Waiting,
    Deferred(u16, Seq<u8>),
    Live,
}

impl View for Settling {
    type V = SettlingView;

    open spec fn view(&self) -> SettlingView {
        match self {
            Settling::Waiting => SettlingView::Waiting,
            Settling::Deferred(channel, payload) => SettlingView::Deferred(*channel, payload@),
            Settling::Live => SettlingView::Live,
        }
    }
}

/// What one PDU of the share means while it is being finalized.
pub open spec fn response_spec(payload: Seq<u8>) -> Result<SettlingView, ConnectError> {
    match share::decode_spec(payload) {
        Err(e) => Err(ConnectError::Malformed(e)),
        Ok(PduView::Data(kind, body)) => match finalization::response_spec(kind, body) {
            Err(e) => Err(ConnectError::Malformed(e)),
            Ok(response) => Ok(
                if response == Response::FontMap { SettlingView::Live } else { SettlingView::Waiting },
            ),
        },
        Ok(_) => Err(ConnectError::Deactivated),
    }
}

/// What one frame means while the share is being finalized.
pub open spec fn settle_spec(io_channel: u16, frame: Seq<u8>) -> Result<SettlingView, ConnectError> {
    if frame.len() > 0 && frame[0] & fastpath::ACTION == fastpath::ACTION_FASTPATH {
        Ok(SettlingView::Waiting)
    } else {
        match mcs::send_data_indication_spec(frame) {
            Err(e) => Err(ConnectError::Malformed(e)),
            Ok(mcs::IndicationView::Data(sent, payload)) => if sent == io_channel {
                response_spec(payload)
            } else {
                Ok(SettlingView::Deferred(sent, payload))
            },
            Ok(mcs::IndicationView::Disconnect(reason)) => Err(ConnectError::Ended(reason)),
        }
    }
}

/// The capability exchange and the handshake after it: everything sent between a Demand
/// Active and a live share.
///
/// Sent once while connecting, and again every time the server tears the desktop down and
/// builds it back: the Deactivation-Reactivation Sequence repeats this whole exchange. All
/// of it goes out without waiting; the server's four PDUs come back in its own time, with
/// session PDUs among them, and [`settle`] reads them.
pub fn activation(user: u16, io_channel: u16, demand: &DemandActive) -> (pdus: Vec<Vec<u8>>)
    requires
        user >= mcs::BASE_USER,
    ensures
        Seq::new(pdus@.len(), |i: int| pdus@[i]@) == activation_bytes(user, io_channel, *demand),
{
    let confirm = ConfirmActive {
        share_id: demand.share_id,
        width: demand.width,
        height: demand.height,
        keyboard_layout: KEYBOARD_LAYOUT,
        multifragment: demand.multifragment,
    };
    let confirm = share::confirm_active(user, confirm.encode().as_slice());
    let requests = finalization::requests(user, demand.share_id);
    let mut pdus: Vec<Vec<u8>> = Vec::new();
    pdus.push(sent(user, io_channel, confirm.as_slice()));
    pdus.push(sent(user, io_channel, requests[0].as_slice()));
    pdus.push(sent(user, io_channel, requests[1].as_slice()));
    pdus.push(sent(user, io_channel, requests[2].as_slice()));
    pdus.push(sent(user, io_channel, requests[3].as_slice()));
    assert(Seq::new(pdus@.len(), |i: int| pdus@[i]@) =~= activation_bytes(user, io_channel, *demand));
    pdus
}

/// A PDU that is known to fit, addressed to a channel.
fn sent(user: u16, channel: u16, pdu: &[u8]) -> (frame: Vec<u8>)
    requires
        user >= mcs::BASE_USER,
        pdu@.len() <= mcs::MAX_SEND_DATA,
    ensures
        frame@ == sent_bytes(user, channel, pdu@),
{
    match mcs::send_data_request(user, channel, pdu) {
        Ok(frame) => frame,
        Err(_) => Vec::new(),
    }
}

/// One frame while the share is being finalized.
///
/// Fast-path updates that arrive part-way through are read past: the server may start
/// painting a desktop before it has finished agreeing on one, and what is dropped here is
/// asked for again by whoever activates the share.
///
/// A static virtual channel is not the share's, and nothing on one can be asked for again:
/// a server opens the clipboard as soon as the channel is up, which is before this
/// exchange ends, and a Monitor Ready read past here would be a session whose clipboard
/// never started. So those are handed back rather than dropped, to be acted on later.
pub fn settle(io_channel: u16, frame: &[u8]) -> (res: Result<Settling, ConnectError>)
    ensures
        match settle_spec(io_channel, frame@) {
            Ok(settling) => res matches Ok(got) && got@ == settling,
            Err(e) => res == Err::<Settling, ConnectError>(e),
        },
{
    if frame.len() > 0 && fastpath::is_output(frame[0]) {
        return Ok(Settling::Waiting);
    }
    let payload = match mcs::send_data_indication(frame) {
        Err(e) => {
            return Err(ConnectError::Malformed(e));
        },
        Ok(mcs::Indication::Disconnect(reason)) => {
            return Err(ConnectError::Ended(reason));
        },
        Ok(mcs::Indication::Data(data)) => {
            if data.channel != io_channel {
                return Ok(Settling::Deferred(data.channel, copy(data.payload)));
            }
            data.payload
        },
    };
    match share::decode(payload) {
        Err(e) => Err(ConnectError::Malformed(e)),
        Ok(Pdu::Data(data)) => match finalization::response(&data) {
            Err(e) => Err(ConnectError::Malformed(e)),
            Ok(Response::FontMap) => Ok(Settling::Live),
            Ok(_) => Ok(Settling::Waiting),
        },
        Ok(_) => Err(ConnectError::Deactivated),
    }
}

/// The host's answer to the conference.
#[verifier::opaque]
pub open spec fn answer_spec(frame: Seq<u8>) -> Result<ResponseView, Malformed> {
    match mcs::connect_response_spec(frame) {
        Err(e) => Err(e),
        Ok(answer) => ConferenceCreateResponse::decode_spec(answer),
    }
}

fn answer(frame: &[u8]) -> (res: Result<ConferenceCreateResponse, Malformed>)
    ensures
        views(res, answer_spec(frame@)),
{
    proof {
        reveal(answer_spec);
    }
    let answer = mcs::connect_response(frame)?;
    ConferenceCreateResponse::decode(answer)
}

/// What the frame that numbers the channels leads to.
pub open spec fn conferred(s: HandshakeView, asked: nat, frame: Seq<u8>) -> (
    HandshakeView,
    Result<Seq<Seq<u8>>, ConnectError>,
) {
    match answer_spec(frame) {
        Err(e) => (s, Err(ConnectError::Malformed(e))),
        Ok(answer) => if answer.channels.len() != asked {
            (
                s,
                Err(
                    ConnectError::Numbered {
                        numbered: answer.channels.len() as usize,
                        asked: asked as usize,
                    },
                ),
            )
        } else {
            (
                HandshakeView {
                    stage: Stage::Attaching,
                    channels: answer.channels,
                    io_channel: answer.io_channel,
                    ..s
                },
                Ok(seq![erect_bytes(), attach_bytes()]),
            )
        },
    }
}

/// What the frame that names this end's user leads to: the first channel to join is the
/// user's own.
pub open spec fn attached(s: HandshakeView, frame: Seq<u8>) -> (HandshakeView, Result<Seq<Seq<u8>>, ConnectError>) {
    match mcs::attach_user_confirm_spec(frame) {
        Err(e) => (s, Err(ConnectError::Malformed(e))),
        Ok(user) => (
            HandshakeView { stage: Stage::Joining(0), user, ..s },
            Ok(seq![join_bytes(user, user)]),
        ),
    }
}

/// What the frame that confirms a channel leads to: the next to join, or the logon.
pub open spec fn joined(
    s: HandshakeView,
    at: int,
    config: Connect<'_>,
    address: Address<'_>,
    frame: Seq<u8>,
) -> (HandshakeView, Result<Seq<Seq<u8>>, ConnectError>) {
    match mcs::channel_join_confirm_spec(frame) {
        Err(e) => (s, Err(ConnectError::Malformed(e))),
        Ok(channel) => if channel != s.to_join()[at] {
            (s, Err(ConnectError::Joined { joined: channel, asked: s.to_join()[at] }))
        } else if at + 1 < s.to_join().len() {
            (
                s.at(Stage::Joining((at + 1) as usize)),
                Ok(seq![join_bytes(s.user, s.to_join()[at + 1])]),
            )
        } else {
            match logon_spec(config, address, s.user, s.io_channel) {
                Err(e) => (s, Err(e)),
                Ok(pdu) => (s.at(Stage::Licensing), Ok(seq![pdu])),
            }
        },
    }
}

/// What the frame that licenses the client leads to.
pub open spec fn licensed(s: HandshakeView, frame: Seq<u8>) -> (HandshakeView, Result<Seq<Seq<u8>>, ConnectError>) {
    match payload_spec(frame, s.io_channel) {
        Err(e) => (s, Err(e)),
        Ok(payload) => match license::accept_spec(payload) {
            Err(e) => (s, Err(ConnectError::Malformed(e))),
            Ok(_) => (s.at(Stage::Demanding), Ok(seq![])),
        },
    }
}

/// What the frame that demands a share leads to.
pub open spec fn demanded(s: HandshakeView, frame: Seq<u8>) -> (HandshakeView, Result<Seq<Seq<u8>>, ConnectError>) {
    match payload_spec(frame, s.io_channel) {
        Err(e) => (s, Err(e)),
        Ok(payload) => match share::decode_spec(payload) {
            Err(e) => (s, Err(ConnectError::Malformed(e))),
            Ok(PduView::DemandActive(source, body)) => match DemandActive::decode_spec(source, body) {
                Err(e) => (s, Err(ConnectError::Malformed(e))),
                Ok(demand) => (
                    HandshakeView { stage: Stage::Activating, demand: Some(demand), ..s },
                    Ok(activation_bytes(s.user, s.io_channel, demand)),
                ),
            },
            Ok(_) => (s, Err(ConnectError::NoShare)),
        },
    }
}

/// What a frame leads to while the share is being finalized.
pub open spec fn activated(s: HandshakeView, frame: Seq<u8>) -> (HandshakeView, Result<Seq<Seq<u8>>, ConnectError>) {
    match settle_spec(s.io_channel, frame) {
        Err(e) => (s, Err(e)),
        Ok(SettlingView::Waiting) => (s, Ok(seq![])),
        Ok(SettlingView::Deferred(channel, payload)) => (
            HandshakeView { deferred: s.deferred.push((channel, payload)), ..s },
            Ok(seq![]),
        ),
        Ok(SettlingView::Live) => (s.at(Stage::Live), Ok(seq![])),
    }
}

/// What one frame leads to, and what is sent for it.
pub open spec fn advance_spec(s: HandshakeView, config: Connect<'_>, address: Address<'_>, frame: Seq<u8>) -> (
    HandshakeView,
    Result<Seq<Seq<u8>>, ConnectError>,
) {
    match s.stage {
        Stage::Conferring => conferred(s, wanted(config).len(), frame),
        Stage::Attaching => attached(s, frame),
        Stage::Joining(at) => joined(s, at as int, config, address, frame),
        Stage::Licensing => licensed(s, frame),
        Stage::Demanding => demanded(s, frame),
        Stage::Activating => activated(s, frame),
        Stage::Live => (s, Ok(seq![])),
    }
}

/// Frames to send, by their contents.
pub open spec fn frames(res: Result<Vec<Vec<u8>>, ConnectError>) -> Result<Seq<Seq<u8>>, ConnectError> {
    match res {
        Ok(frames) => Ok(Seq::new(frames@.len(), |i: int| frames@[i]@)),
        Err(e) => Err(e),
    }
}

fn none() -> (out: Vec<Vec<u8>>)
    ensures
        frames(Ok(out)) == Ok::<Seq<Seq<u8>>, ConnectError>(seq![]),
{
    let out: Vec<Vec<u8>> = Vec::new();
    assert(Seq::new(out@.len(), |i: int| out@[i]@) =~= seq![]);
    out
}

fn one(frame: Vec<u8>) -> (out: Vec<Vec<u8>>)
    ensures
        frames(Ok(out)) == Ok::<Seq<Seq<u8>>, ConnectError>(seq![frame@]),
{
    let mut out: Vec<Vec<u8>> = Vec::new();
    out.push(frame);
    assert(Seq::new(out@.len(), |i: int| out@[i]@) =~= seq![frame@]);
    out
}

/// A static virtual channel this session joined.
#[derive(Clone, Copy, Debug, PartialEq, Eq)]
pub struct Joined {
    /// The number the server gave it, which every PDU on it is addressed to.
    pub number: u16,
    /// What every chunk of this channel's PDUs wears beyond first and last: see
    /// [`Channel::chunk_flags`].
    pub flags: u32,
}

/// A live share, and everything later PDUs are addressed with.
pub struct Connected {
    /// This client's own MCS user, which every PDU it sends names as its source.
    pub user: u16,
    /// Where the desktop and everything about it travels.
    pub io_channel: u16,
    /// Every static virtual channel that was asked for, with the number the server gave
    /// it, read by name through [`Connected::channel`].
    pub channels: Vec<(Channel, u16)>,
    /// What the server said when it opened the share.
    pub demand: DemandActive,
    /// PDUs that arrived on a static virtual channel while the share was being finalized,
    /// in the order they came: see [`settle`].
    pub deferred: Vec<(u16, Vec<u8>)>,
}

/// The first channel of the list that is this one, as it was joined.
pub open spec fn channel_spec(channels: Seq<(Channel, u16)>, wanted: Channel) -> Option<Joined>
    decreases channels.len(),
{
    if channels.len() == 0 {
        None
    } else if alike(channels[0].0, wanted) {
        Some(Joined { number: channels[0].1, flags: wanted.spec_chunk_flags() })
    } else {
        channel_spec(channels.skip(1), wanted)
    }
}

impl Connected {
    /// One channel as it was joined, or `None` for a channel this session never asked for.
    pub fn channel(&self, wanted: Channel) -> (joined: Option<Joined>)
        ensures
            joined == channel_spec(self.channels@, wanted),
    {
        assert(self.channels@.skip(0) =~= self.channels@);
        for i in 0..self.channels.len()
            invariant
                channel_spec(self.channels@, wanted) == channel_spec(self.channels@.skip(i as int), wanted),
        {
            let (channel, number): (Channel, u16) = self.channels[i];
            assert(self.channels@.skip(i as int).skip(1) =~= self.channels@.skip(i + 1));
            if same_text(channel.name, wanted.name) && channel.options == wanted.options {
                return Some(Joined { number, flags: channel.chunk_flags() });
            }
        }
        None
    }
}

impl Handshake {
    /// The sequence as it stands once the conference has been asked for.
    pub fn new() -> (h: Handshake)
        ensures
            h@ == HandshakeView::start(),
            h@.wf(),
    {
        let h = Handshake {
            stage: Stage::Conferring,
            channels: Vec::new(),
            io_channel: 0,
            user: 0,
            demand: None,
            deferred: Vec::new(),
        };
        assert(h@.channels =~= seq![]);
        assert(h@.deferred =~= seq![]);
        h
    }

    /// Whether the share is live.
    pub fn is_live(&self) -> (live: bool)
        ensures
            live == (self@.stage == Stage::Live),
    {
        matches!(self.stage, Stage::Live)
    }

    /// One frame from the host: what to send for it, in order, before the next is read.
    pub fn advance(&mut self, config: &Connect<'_>, address: Address<'_>, frame: &[u8]) -> (res: Result<
        Vec<Vec<u8>>,
        ConnectError,
    >)
        requires
            old(self)@.wf(),
            logon(*config, address).total() <= usize::MAX,
        ensures
            final(self)@.wf(),
            advance_spec(old(self)@, *config, address, frame@) == (final(self)@, frames(res)),
    {
        match self.stage {
            Stage::Conferring => self.confer(config, frame),
            Stage::Attaching => self.attach(frame),
            Stage::Joining(at) => self.join(at, config, address, frame),
            Stage::Licensing => self.license(frame),
            Stage::Demanding => self.demand(frame),
            Stage::Activating => self.activate(frame),
            Stage::Live => Ok(none()),
        }
    }

    fn confer(&mut self, config: &Connect<'_>, frame: &[u8]) -> (res: Result<Vec<Vec<u8>>, ConnectError>)
        requires
            old(self)@.wf(),
            old(self)@.stage == Stage::Conferring,
        ensures
            final(self)@.wf(),
            conferred(old(self)@, wanted(*config).len(), frame@) == (final(self)@, frames(res)),
    {
        let answer = match answer(frame) {
            Ok(answer) => answer,
            Err(e) => {
                return Err(ConnectError::Malformed(e));
            },
        };
        let asked: usize = wanted_channels(config).len();
        proof {
            wanted_channels_are_named(*config);
        }
        if answer.channels.len() != asked {
            return Err(ConnectError::Numbered { numbered: answer.channels.len(), asked });
        }
        self.stage = Stage::Attaching;
        self.io_channel = answer.io_channel;
        self.channels = answer.channels;
        // Erect the domain, which is not answered, and attach a user to it.
        let mut out: Vec<Vec<u8>> = Vec::new();
        out.push(mcs::erect_domain_request());
        out.push(mcs::attach_user_request());
        assert(Seq::new(out@.len(), |i: int| out@[i]@) =~= seq![erect_bytes(), attach_bytes()]);
        Ok(out)
    }

    fn attach(&mut self, frame: &[u8]) -> (res: Result<Vec<Vec<u8>>, ConnectError>)
        requires
            old(self)@.wf(),
            old(self)@.stage == Stage::Attaching,
        ensures
            final(self)@.wf(),
            attached(old(self)@, frame@) == (final(self)@, frames(res)),
    {
        match mcs::attach_user_confirm(frame) {
            Err(e) => Err(ConnectError::Malformed(e)),
            Ok(user) => {
                self.user = user;
                self.stage = Stage::Joining(0);
                Ok(one(mcs::channel_join_request(user, user)))
            },
        }
    }

    /// One of the channels to join.
    fn channel_at(&self, at: usize) -> (channel: u16)
        requires
            at < self@.to_join().len(),
        ensures
            channel == self@.to_join()[at as int],
    {
        if at == 0 {
            self.user
        } else if at == 1 {
            self.io_channel
        } else {
            self.channels[at - 2]
        }
    }

    /// Join every channel, the user's own first. Each is its own round trip.
    fn join(&mut self, at: usize, config: &Connect<'_>, address: Address<'_>, frame: &[u8]) -> (res: Result<
        Vec<Vec<u8>>,
        ConnectError,
    >)
        requires
            old(self)@.wf(),
            old(self)@.stage == Stage::Joining(at),
            logon(*config, address).total() <= usize::MAX,
        ensures
            final(self)@.wf(),
            joined(old(self)@, at as int, *config, address, frame@) == (final(self)@, frames(res)),
    {
        let channel = match mcs::channel_join_confirm(frame) {
            Ok(channel) => channel,
            Err(e) => {
                return Err(ConnectError::Malformed(e));
            },
        };
        let asked = self.channel_at(at);
        if channel != asked {
            return Err(ConnectError::Joined { joined: channel, asked });
        }
        if at + 1 < self.channels.len() + 2 {
            let next = self.channel_at(at + 1);
            self.stage = Stage::Joining(at + 1);
            return Ok(one(mcs::channel_join_request(self.user, next)));
        }
        let info = ClientInfo {
            username: config.username,
            password: config.password,
            domain: config.domain,
            address,
            audio: config.audio,
        };
        let pdu = match info.encode() {
            Ok(pdu) => pdu,
            Err(e) => {
                return Err(ConnectError::TooLong(e));
            },
        };
        match mcs::send_data_request(self.user, self.io_channel, pdu.as_slice()) {
            Err(e) => Err(ConnectError::TooLong(e)),
            Ok(framed) => {
                self.stage = Stage::Licensing;
                Ok(one(framed))
            },
        }
    }

    fn license(&mut self, frame: &[u8]) -> (res: Result<Vec<Vec<u8>>, ConnectError>)
        requires
            old(self)@.wf(),
            old(self)@.stage == Stage::Licensing,
        ensures
            final(self)@.wf(),
            licensed(old(self)@, frame@) == (final(self)@, frames(res)),
    {
        let payload = payload_on(frame, self.io_channel)?;
        match license::accept(payload) {
            Err(e) => Err(ConnectError::Malformed(e)),
            Ok(_) => {
                self.stage = Stage::Demanding;
                Ok(none())
            },
        }
    }

    fn demand(&mut self, frame: &[u8]) -> (res: Result<Vec<Vec<u8>>, ConnectError>)
        requires
            old(self)@.wf(),
            old(self)@.stage == Stage::Demanding,
        ensures
            final(self)@.wf(),
            demanded(old(self)@, frame@) == (final(self)@, frames(res)),
    {
        let payload = payload_on(frame, self.io_channel)?;
        match share::decode(payload) {
            Err(e) => Err(ConnectError::Malformed(e)),
            Ok(Pdu::DemandActive(source, body)) => match DemandActive::decode(source, body) {
                Err(e) => Err(ConnectError::Malformed(e)),
                Ok(demand) => {
                    self.stage = Stage::Activating;
                    self.demand = Some(demand);
                    Ok(activation(self.user, self.io_channel, &demand))
                },
            },
            Ok(_) => Err(ConnectError::NoShare),
        }
    }

    fn activate(&mut self, frame: &[u8]) -> (res: Result<Vec<Vec<u8>>, ConnectError>)
        requires
            old(self)@.wf(),
            old(self)@.stage == Stage::Activating,
        ensures
            final(self)@.wf(),
            activated(old(self)@, frame@) == (final(self)@, frames(res)),
    {
        match settle(self.io_channel, frame)? {
            Settling::Waiting => {},
            Settling::Deferred(channel, payload) => {
                self.deferred.push((channel, payload));
                assert(self@.deferred =~= old(self)@.deferred.push((channel, payload@)));
            },
            Settling::Live => {
                self.stage = Stage::Live;
            },
        }
        Ok(none())
    }

    /// The live share, and everything later PDUs are addressed with.
    pub fn finish(self, config: &Connect<'_>) -> (connected: Connected)
        requires
            self@.wf(),
            self@.stage == Stage::Live,
        ensures
            connected.user == self@.user,
            connected.io_channel == self@.io_channel,
            connected.demand == self@.demand->0,
            contents(connected.deferred@) == self@.deferred,
            connected.channels@ == paired(wanted(*config), self@.channels),
    {
        let wanted_list = wanted_channels(config);
        let ghost (names, numbers) = (wanted_list@, self.channels@);
        let mut channels: Vec<(Channel, u16)> = Vec::new();
        let n: usize = if wanted_list.len() < self.channels.len() {
            wanted_list.len()
        } else {
            self.channels.len()
        };
        for i in 0..n
            invariant
                names == wanted_list@,
                numbers == self.channels@,
                n <= names.len() && n <= numbers.len(),
                channels@.len() == i,
                forall|j: int| 0 <= j < i ==> #[trigger] channels@[j] == (names[j], numbers[j]),
        {
            channels.push((wanted_list[i], self.channels[i]));
        }
        assert(channels@ =~= paired(names, numbers));
        Connected {
            user: self.user,
            io_channel: self.io_channel,
            channels,
            demand: self.demand.unwrap(),
            deferred: self.deferred,
        }
    }
}

/// Names and numbers paired in the order both sides listed them, which is the only thing
/// that says which number is which channel.
pub open spec fn paired(names: Seq<Channel>, numbers: Seq<u16>) -> Seq<(Channel, u16)> {
    Seq::new(
        if names.len() < numbers.len() { names.len() } else { numbers.len() },
        |i: int| (names[i], numbers[i]),
    )
}

/// A frame that is refused leaves the sequence where it was.
pub proof fn a_refusal_changes_nothing(s: HandshakeView, config: Connect<'_>, address: Address<'_>, frame: Seq<u8>)
    ensures
        advance_spec(s, config, address, frame).1 is Err ==> advance_spec(s, config, address, frame).0 == s,
{
}

/// The number a channel is found under: the one that stands where the channel stood among
/// those asked for.
pub open spec fn number_of(config: Connect<'_>, numbers: Seq<u16>, channel: Channel, on: bool, at: int) -> bool {
    channel_spec(paired(wanted(config), numbers), channel) == if on {
        Some(Joined { number: numbers[at], flags: channel.spec_chunk_flags() })
    } else {
        None
    }
}

/// Every channel a session asked for is found by its name, under the number the host gave
/// it, and none that it did not ask for is found.
pub proof fn a_channel_is_found_by_its_name(config: Connect<'_>, numbers: Seq<u16>)
    requires
        numbers.len() == wanted(config).len(),
    ensures
        ({
            let first = if config.resize || config.egfx { 1int } else { 0 };
            let second = first + if config.clipboard { 1int } else { 0 };
            &&& number_of(config, numbers, dynamic(), config.resize || config.egfx, 0)
            &&& number_of(config, numbers, clipboard(), config.clipboard, first)
            &&& number_of(config, numbers, audio(), config.audio, second)
            &&& number_of(config, numbers, devices(), config.audio, second + 1)
        }),
{
    reveal_strlit("drdynvc");
    reveal_strlit("cliprdr");
    reveal_strlit("rdpsnd");
    reveal_strlit("rdpdr");
    assert("drdynvc"@[0] != "cliprdr"@[0]);
    assert("drdynvc"@[0] != "rdpsnd"@[0]);
    assert("drdynvc"@[0] != "rdpdr"@[0]);
    assert("cliprdr"@[0] != "rdpsnd"@[0]);
    assert("cliprdr"@[0] != "rdpdr"@[0]);
    assert("rdpsnd"@.len() != "rdpdr"@.len());
    let list = paired(wanted(config), numbers);
    let first = if config.resize || config.egfx { 1int } else { 0 };
    let second = first + if config.clipboard { 1int } else { 0 };
    found_or_not(list, dynamic(), if config.resize || config.egfx { 0 } else { list.len() as int });
    found_or_not(list, clipboard(), if config.clipboard { first } else { list.len() as int });
    found_or_not(list, audio(), if config.audio { second } else { list.len() as int });
    found_or_not(list, devices(), if config.audio { second + 1 } else { list.len() as int });
}

/// Two channels by name and options.
pub open spec fn alike(a: Channel, b: Channel) -> bool {
    a.name@ == b.name@ && a.options == b.options
}

proof fn found_or_not(list: Seq<(Channel, u16)>, channel: Channel, at: int)
    requires
        0 <= at <= list.len(),
        forall|i: int| 0 <= i < at ==> !alike((#[trigger] list[i]).0, channel),
        at < list.len() ==> alike(list[at].0, channel),
    ensures
        channel_spec(list, channel) == if at < list.len() {
            Some(Joined { number: list[at].1, flags: channel.spec_chunk_flags() })
        } else {
            None
        },
    decreases at,
{
    if at > 0 {
        let rest = list.skip(1);
        assert forall|i: int| 0 <= i < at - 1 implies !alike((#[trigger] rest[i]).0, channel) by {
            assert(rest[i] == list[i + 1]);
        }
        found_or_not(rest, channel, at - 1);
    }
}

/// How far along the sequence a stage is: there are at most six channels to join.
pub open spec fn order(stage: Stage) -> int {
    match stage {
        Stage::Conferring => 0,
        Stage::Attaching => 1,
        Stage::Joining(at) => 2 + at,
        Stage::Licensing => 10,
        Stage::Demanding => 11,
        Stage::Activating => 12,
        Stage::Live => 13,
    }
}

/// The sequence only ever goes forward, and outside the last exchange every frame that is
/// taken is a step: nothing is asked twice.
pub proof fn the_sequence_goes_forward(s: HandshakeView, config: Connect<'_>, address: Address<'_>, frame: Seq<u8>)
    requires
        s.wf(),
    ensures
        order(s.stage) <= order(advance_spec(s, config, address, frame).0.stage),
        s.stage != Stage::Activating && s.stage != Stage::Live && advance_spec(s, config, address, frame).1 is Ok
            ==> order(s.stage) < order(advance_spec(s, config, address, frame).0.stage),
{
}

/// Nothing that arrives on a static virtual channel while the share is finalized is lost:
/// it is kept, after what was kept before it, and nothing else is.
pub proof fn nothing_on_a_channel_is_lost(s: HandshakeView, config: Connect<'_>, address: Address<'_>, frame: Seq<u8>)
    requires
        s.stage == Stage::Activating,
    ensures
        advance_spec(s, config, address, frame).0.deferred == match settle_spec(s.io_channel, frame) {
            Ok(SettlingView::Deferred(channel, payload)) => s.deferred.push((channel, payload)),
            _ => s.deferred,
        },
{
}

} // verus!
