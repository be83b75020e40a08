use rdp_client::connect::{
    activation, conference, narrow, negotiated, opening, payload_on, settle, wanted_channels, Connect,
    ConnectError, Connected, Handshake, Joined, Settling,
};
use rdp_client::proto::capabilities::{DemandActive, BITMAP, INPUT, SERVER_CHANNEL};
use rdp_client::proto::gcc::{Channel, SC_CORE, SC_NET, SC_SECURITY};
use rdp_client::proto::info::Address;
use rdp_client::proto::mcs::{self, DomainParameters, Reason, CONNECT_RESPONSE, SEND_DATA_INDICATION};
use rdp_client::proto::share;
use rdp_client::proto::wire::{Malformed, Writer};
use rdp_client::proto::x224::{self, Security, TooLong};
use rdp_client::proto::{der, per};

const USER: u16 = 1007;
const IO: u16 = 1003;

fn config() -> Connect<'static> {
    Connect {
        username: "andrew",
        password: "x",
        domain: None,
        width: 1280,
        height: 70_000,
        resize: true,
        egfx: false,
        clipboard: true,
        audio: false,
    }
}

/// An X.224 Connection Confirm with this negotiation structure, or with none.
fn confirm(negotiation: Option<(u8, u32)>) -> Vec<u8> {
    let mut body = vec![0, 0xD0, 0, 0, 0, 0, 0];
    if let Some((kind, value)) = negotiation {
        body.extend_from_slice(&[kind, 0, 8, 0]);
        body.extend_from_slice(&value.to_le_bytes());
    }
    body[0] = (body.len() - 1) as u8;
    let mut frame = vec![3, 0];
    frame.extend_from_slice(&((4 + body.len()) as u16).to_be_bytes());
    frame.extend_from_slice(&body);
    frame
}

/// The MCS Connect-Response that numbers these channels.
fn numbering(channels: &[u16]) -> Vec<u8> {
    let mut blocks = Writer::new();
    blocks.u16_le(SC_CORE);
    blocks.u16_le(8);
    blocks.u32_le(0x0008_0004);
    blocks.u16_le(SC_SECURITY);
    blocks.u16_le(12);
    blocks.u32_le(0);
    blocks.u32_le(0);
    blocks.u16_le(SC_NET);
    let padding = (channels.len() % 2) * 2;
    blocks.u16_le((8 + channels.len() * 2 + padding) as u16);
    blocks.u16_le(IO);
    blocks.u16_le(channels.len() as u16);
    for channel in channels {
        blocks.u16_le(*channel);
    }
    blocks.zeros(padding);
    let blocks = blocks.finish();

    let mut answer = Writer::new();
    answer.bytes(&[0x00, 0x05, 0x00, 0x14, 0x7C, 0x00, 0x01]);
    per::write_length(&mut answer, (blocks.len() + 20) as u16);
    answer.u8(0x14);
    per::write_integer16(&mut answer, 1002, 1001);
    per::write_integer(&mut answer, 1);
    answer.bytes(&[0, 1, 0xC0]);
    per::write_octet_string(&mut answer, b"McDn", 4);
    per::write_octet_string(&mut answer, &blocks, 0);

    let mut body = Writer::new();
    der::write_tag(&mut body, der::ENUMERATED, 1);
    body.u8(0);
    der::write_integer(&mut body, 0);
    DomainParameters::target().write(&mut body);
    der::write_octet_string(&mut body, &answer.finish());
    let body = body.finish();
    let mut w = Writer::new();
    der::write_application_tag(&mut w, CONNECT_RESPONSE, body.len());
    w.bytes(&body);
    x224::data(&w.finish()).unwrap()
}

fn attached() -> Vec<u8> {
    x224::data(&[0x2E, 0x00, 0x00, 0x06]).unwrap()
}

fn joined(channel: u16) -> Vec<u8> {
    let [high, low] = channel.to_be_bytes();
    x224::data(&[0x3E, 0x00, 0x00, 0x06, high, low, high, low]).unwrap()
}

/// A PDU as a server sends it on a channel.
fn indication(channel: u16, payload: &[u8]) -> Vec<u8> {
    let sent = mcs::send_data_request(1002, channel, payload).unwrap();
    let mut pdu = x224::data_payload(&sent).unwrap().to_vec();
    pdu[0] = SEND_DATA_INDICATION << 2;
    x224::data(&pdu).unwrap()
}

fn licensed() -> Vec<u8> {
    indication(IO, &[
        0x80, 0x00, 0x00, 0x00, 0xFF, 0x03, 0x10, 0x00, 0x07, 0x00, 0x00, 0x00, 0x02, 0x00, 0x00, 0x00, 0x04, 0x00,
        0x00, 0x00,
    ])
}

fn demanded() -> Vec<u8> {
    let mut bitmap = Writer::new();
    bitmap.u16_le(32);
    bitmap.zeros(6);
    bitmap.u16_le(1280);
    bitmap.u16_le(800);
    bitmap.zeros(12);
    let mut input = Writer::new();
    input.u16_le(0x0021);
    input.zeros(82);
    let sets = [(BITMAP, bitmap.finish()), (INPUT, input.finish())];
    let mut body = Writer::new();
    body.u32_le(0x0001_0021);
    body.u16_le(4);
    body.u16_le((4 + sets.iter().map(|(_, set)| set.len() + 4).sum::<usize>()) as u16);
    body.bytes(b"RDP\0");
    body.u16_le(2);
    body.zeros(2);
    for (kind, set) in &sets {
        body.u16_le(*kind);
        body.u16_le((set.len() + 4) as u16);
        body.bytes(set);
    }
    body.u32_le(0);
    let body = body.finish();
    let mut pdu = Writer::new();
    pdu.u16_le((6 + body.len()) as u16);
    pdu.u16_le(share::DEMAND_ACTIVE);
    pdu.u16_le(SERVER_CHANNEL);
    pdu.bytes(&body);
    indication(IO, &pdu.finish())
}

fn font_map() -> Vec<u8> {
    indication(IO, &share::data(share::FONT_MAP, 0x03EA, 0x0001_0021, &[0, 0, 0, 0, 3, 0, 4, 0]))
}

/// One frame through the sequence.
fn step(handshake: &mut Handshake, frame: &[u8]) -> Result<Vec<Vec<u8>>, ConnectError> {
    handshake.advance(&config(), Address::V4("10.0.0.2"), frame)
}

/// The sequence taken to where it waits for the licence.
fn logged_on() -> Handshake {
    let mut handshake = Handshake::new();
    for frame in [numbering(&[1004, 1005]), attached(), joined(USER), joined(IO), joined(1004), joined(1005)] {
        step(&mut handshake, &frame).unwrap();
    }
    handshake
}

/// Only NLA is offered, so only NLA may be chosen; every other answer says what it was.
#[test]
fn the_negotiation_is_for_nla_and_nothing_else() {
    let frame = opening(&config()).unwrap();
    assert_eq!(x224::frame_length(&[frame[0], frame[1], frame[2], frame[3]]).unwrap(), frame.len());
    assert_eq!(&frame[11..36], b"Cookie: mstshash=andrew\r\n");
    assert_eq!(&frame[36..], &[1, 0, 8, 0, 2, 0, 0, 0]);
    let name = "n".repeat(300);
    let long = Connect { username: &name, ..config() };
    assert_eq!(opening(&long), Err(ConnectError::TooLong(TooLong(300))));

    assert_eq!(negotiated(&confirm(Some((2, 2)))), Ok(Security(2)));
    assert_eq!(negotiated(&confirm(Some((2, 1)))), Err(ConnectError::NotNla(Security(1))));
    assert_eq!(negotiated(&confirm(Some((3, 5)))), Err(ConnectError::Refused(5)));
    assert_eq!(negotiated(&confirm(None)), Err(ConnectError::Unnegotiated));
    assert!(matches!(negotiated(&[3, 0]), Err(ConnectError::Malformed(Malformed::Short { .. }))));
}

/// The channels are asked for in a fixed order, sound with the device redirection it needs,
/// and a session that wants none asks for none.
#[test]
fn the_channels_follow_what_was_turned_on() {
    let names = |config: Connect<'_>| wanted_channels(&config).iter().map(|channel| channel.name).collect::<Vec<_>>();
    let none = Connect { resize: false, egfx: false, clipboard: false, audio: false, ..config() };
    assert!(names(none).is_empty());
    assert_eq!(names(Connect { egfx: true, ..none }), ["drdynvc"]);
    assert_eq!(names(Connect { audio: true, ..none }), ["rdpsnd", "rdpdr"]);
    assert_eq!(names(Connect { audio: true, ..config() }), ["drdynvc", "cliprdr", "rdpsnd", "rdpdr"]);
    assert_eq!((narrow(1280), narrow(65_535), narrow(65_536)), (1280, 65_535, 65_535));
    let frame = conference(&config(), Security(2)).unwrap();
    assert!(frame.windows(8).any(|name| name == b"drdynvc\0"));
    assert!(frame.windows(8).any(|name| name == b"cliprdr\0"));
}

/// Every step of the sequence, what is sent at each, and the share at the end of it.
#[test]
fn the_sequence_ends_with_a_live_share() {
    let mut handshake = Handshake::new();
    let sent = step(&mut handshake, &numbering(&[1004, 1005])).unwrap();
    assert_eq!(sent, [mcs::erect_domain_request(), mcs::attach_user_request()]);
    // The user's own channel first, then the I/O channel, then the others in order.
    let sent = step(&mut handshake, &attached()).unwrap();
    assert_eq!(sent, [mcs::channel_join_request(USER, USER)]);
    for (confirmed, next) in [(USER, IO), (IO, 1004), (1004, 1005)] {
        let sent = step(&mut handshake, &joined(confirmed)).unwrap();
        assert_eq!(sent, [mcs::channel_join_request(USER, next)]);
    }
    // The logon goes out once the last is joined.
    let sent = step(&mut handshake, &joined(1005)).unwrap();
    assert_eq!(sent.len(), 1);
    assert!(sent[0].windows(4).any(|flags| flags == [0x40, 0, 0, 0]));
    assert!(step(&mut handshake, &licensed()).unwrap().is_empty());
    // The capabilities and the four finalization PDUs, all at once.
    let sent = step(&mut handshake, &demanded()).unwrap();
    assert_eq!(sent.len(), 5);
    // A fast-path update is read past; a PDU on another channel is kept for later.
    assert!(step(&mut handshake, &[0x00, 0x02]).unwrap().is_empty());
    assert!(step(&mut handshake, &indication(1005, &[1, 0, 0, 0])).unwrap().is_empty());
    assert!(!handshake.is_live());
    assert!(step(&mut handshake, &font_map()).unwrap().is_empty());
    assert!(handshake.is_live());

    let connected: Connected = handshake.finish(&config());
    assert_eq!((connected.user, connected.io_channel), (USER, IO));
    assert_eq!((connected.demand.width, connected.demand.height), (1280, 800));
    assert_eq!(connected.demand.share_id, 0x0001_0021);
    assert_eq!(connected.deferred, [(1005, vec![1, 0, 0, 0])]);
    assert_eq!(connected.channel(Channel::dynamic()), Some(Joined { number: 1004, flags: 0 }));
    assert_eq!(connected.channel(Channel::clipboard()), Some(Joined { number: 1005, flags: 0x10 }));
    assert_eq!(connected.channel(Channel::audio()), None);
    assert_eq!(sent, activation(USER, IO, &connected.demand));
}

/// A host that does not play its part is told apart by what it did, and the sequence stays
/// where it was.
#[test]
fn a_step_that_goes_wrong_names_what_the_host_did() {
    let mut handshake = Handshake::new();
    let err = step(&mut handshake, &numbering(&[1004])).unwrap_err();
    assert_eq!(err, ConnectError::Numbered { numbered: 1, asked: 2 });
    assert_eq!(err.to_string("host"), "the host numbered 1 channels, and 2 were asked for");
    step(&mut handshake, &numbering(&[1004, 1005])).unwrap();
    step(&mut handshake, &attached()).unwrap();
    let err = step(&mut handshake, &joined(IO)).unwrap_err();
    assert_eq!(err.to_string("host"), "the host joined channel 1003 where 1007 was asked for");
    // Where it was: the user's channel is still the one waited for.
    step(&mut handshake, &joined(USER)).unwrap();

    let mut handshake = logged_on();
    let err = step(&mut handshake, &indication(1005, &[0; 4])).unwrap_err();
    assert_eq!(err.to_string("host"), "the host sent a PDU on channel 1005, where 1003 was expected");
    let err = step(&mut handshake, &x224::data(&[0x21, 0x80]).unwrap()).unwrap_err();
    assert_eq!(err, ConnectError::Ended(Reason(3)));
    assert_eq!(
        err.to_string("host"),
        "the host ended the connection before the desktop was ready: the session was disconnected at the user's \
         request (3)"
    );
    step(&mut handshake, &licensed()).unwrap();
    let err = step(&mut handshake, &font_map()).unwrap_err();
    assert_eq!(err.to_string("host"), "the host did not demand a share once licensing was done");
    step(&mut handshake, &demanded()).unwrap();
    let err = step(&mut handshake, &demanded()).unwrap_err();
    assert_eq!(err.to_string("host"), "the host deactivated the share during connection finalization");
}

/// A name too long for the logon is an error rather than a PDU cut short.
#[test]
fn a_logon_too_long_for_its_frame_is_refused() {
    let name = "n".repeat(20_000);
    let long = Connect { username: &name, ..config() };
    let mut handshake = Handshake::new();
    for frame in [numbering(&[1004, 1005]), attached(), joined(USER), joined(IO), joined(1004)] {
        handshake.advance(&long, Address::V4("10.0.0.2"), &frame).unwrap();
    }
    let err = handshake.advance(&long, Address::V4("10.0.0.2"), &joined(1005)).unwrap_err();
    assert!(matches!(err, ConnectError::TooLong(_)));
}

#[test]
fn the_errors_of_the_negotiation_name_the_host() {
    let text = |error: ConnectError| error.to_string("desk:3389");
    assert_eq!(text(ConnectError::NotNla(Security(1))), "desk:3389 chose Security(1), and this client speaks only NLA");
    assert_eq!(
        text(ConnectError::Unnegotiated),
        "desk:3389 offered no security negotiation, and this client speaks only NLA"
    );
    assert_eq!(text(ConnectError::Refused(5)), "desk:3389 refused the connection: 5");
    assert_eq!(text(ConnectError::TooLong(TooLong(9))), "a PDU of 9 bytes does not fit one frame");
}

#[test]
fn a_frame_settles_a_share_by_what_it_carries() {
    assert_eq!(settle(IO, &font_map()), Ok(Settling::Live));
    assert_eq!(settle(IO, &[0x00]), Ok(Settling::Waiting));
    assert_eq!(settle(IO, &indication(1004, &[7])), Ok(Settling::Deferred(1004, vec![7])));
    assert_eq!(payload_on(&indication(IO, &[7]), IO), Ok(&[7][..]));
    assert!(settle(IO, &[]).is_err());
    let demand = DemandActive::decode(SERVER_CHANNEL, &[]).unwrap_err();
    assert!(matches!(demand, Malformed::Short { .. }));
}
