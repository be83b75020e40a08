use rdp_client::proto::gcc::{
    utf16_fixed, Channel, ConferenceCreateRequest, ConferenceCreateResponse, BLOCK_HEADER, CS_CORE, CS_NET,
    CS_SECURITY, EARLY_CAPABILITIES, SC_CORE, SC_NET, SC_SECURITY,
};
use rdp_client::proto::per;
use rdp_client::proto::wire::{Malformed, Reader, Writer};

/// The start of a `ConnectData`, and of the request in it.
const CONNECT_DATA: [u8; 7] = [0x00, 0x05, 0x00, 0x14, 0x7C, 0x00, 0x01];
const CREATE_REQUEST: [u8; 12] = [0x00, 0x08, 0x00, 0x10, 0x00, 0x01, 0xC0, 0x00, 0x44, 0x75, 0x63, 0x61];

/// What a server's user data is marked with.
const SERVER_KEY: &[u8] = b"McDn";

fn request() -> ConferenceCreateRequest<'static> {
    const CHANNELS: [Channel; 1] = [Channel { name: "drdynvc", options: 0xC080_0000 }];
    ConferenceCreateRequest {
        width: 1920,
        height: 1080,
        client_name: "gateway",
        keyboard_layout: 0x0409,
        selected_protocol: 2,
        channels: &CHANNELS,
        graphics: false,
    }
}

/// The offset of `earlyCapabilityFlags` inside `CS_CORE`'s contents, after the
/// version, the size, the depths, the layout, the build, the name, the keyboard
/// fields, the IME name, the two superseded depths, the product id, the serial
/// number, the high colour depth and the supported depths.
const EARLY_CAPABILITIES_AT: usize = 4 + 2 + 2 + 2 + 2 + 4 + 4 + 32 + 4 + 4 + 4 + 64 + 2 + 2 + 4 + 2 + 2;

fn early_capabilities(request: &ConferenceCreateRequest<'_>) -> u16 {
    let bytes = request.blocks();
    // The first block is CS_CORE, whose header is four bytes.
    let at = BLOCK_HEADER + EARLY_CAPABILITIES_AT;
    u16::from_le_bytes([bytes[at], bytes[at + 1]])
}

/// The one bit that lets a Windows host open the Graphics channel, present when
/// the pipeline is wanted and absent — leaving the flags exactly as they were —
/// when it is not.
#[test]
fn the_graphics_pipeline_is_offered_by_one_early_capability_bit() {
    let without = request();
    assert_eq!(early_capabilities(&without), EARLY_CAPABILITIES);
    let with = ConferenceCreateRequest { graphics: true, ..request() };
    assert_eq!(early_capabilities(&with), EARLY_CAPABILITIES | 0x0100);
}

#[test]
fn the_envelope_announces_exactly_what_follows_it() {
    let bytes = request().encode();
    let mut r = Reader::new("a test", &bytes);
    assert_eq!(r.bytes(CONNECT_DATA.len()).unwrap(), CONNECT_DATA);
    let connect_pdu = usize::from(per::read_length(&mut r).unwrap());
    // The length counts every byte after itself.
    assert_eq!(connect_pdu, bytes.len() - r.at());
    assert_eq!(r.bytes(CREATE_REQUEST.len()).unwrap(), CREATE_REQUEST);
    let blocks = per::read_octet_string(&mut r, 0).unwrap();
    assert!(r.is_empty());
    // CS_CORE, CS_SECURITY, and CS_NET with one channel.
    assert_eq!(blocks.len(), 234 + 12 + 20);
}

#[test]
fn every_block_announces_its_own_length() {
    let bytes = request().encode();
    let mut r = Reader::new("a test", &bytes);
    r.skip(CONNECT_DATA.len()).unwrap();
    per::read_length(&mut r).unwrap();
    r.skip(CREATE_REQUEST.len()).unwrap();
    let blocks = per::read_octet_string(&mut r, 0).unwrap();

    let mut r = Reader::new("a test", blocks);
    let mut seen = Vec::new();
    while !r.is_empty() {
        let block = r.u16_le().unwrap();
        let length = usize::from(r.u16_le().unwrap());
        r.skip(length - BLOCK_HEADER).unwrap();
        seen.push((block, length));
    }
    assert_eq!(seen, vec![(CS_CORE, 234), (CS_SECURITY, 12), (CS_NET, 20)]);
}

/// The one field in `CS_CORE` that is neither constant nor copied straight from a
/// setting: a name is text, and the wire wants a fixed-width UTF-16 field.
#[test]
fn a_client_name_is_terminated_and_padded_and_never_cut_in_half() {
    assert_eq!(utf16_fixed("ab", 8), b"a\0b\0\0\0\0\0");
    // Fifteen units and a terminator is all that fits.
    let bytes = utf16_fixed(&"x".repeat(40), 32);
    assert_eq!(bytes[..30], [b'x', 0].repeat(15)[..]);
    assert_eq!(bytes[30..], [0, 0]);
    // A character outside the BMP is two code units, and goes on whole or not at
    // all: half a surrogate pair is not text in any encoding.
    assert_eq!(utf16_fixed("\u{1F600}x", 8), &[0x3D, 0xD8, 0x00, 0xDE, b'x', 0, 0, 0]);
    assert_eq!(utf16_fixed("\u{1F600}x", 6), &[0x3D, 0xD8, 0x00, 0xDE, 0, 0]);
    assert_eq!(utf16_fixed("\u{1F600}x", 4), &[0, 0, 0, 0]);
}

/// The server's answer, as a Windows host writes it: a core block, a security
/// block saying there is none, and the channel numbers.
fn response(channels: &[u16], security: (u32, u32)) -> Vec<u8> {
    let mut blocks = Writer::new();
    blocks.u16_le(SC_CORE);
    blocks.u16_le(8);
    blocks.u32_le(0x0008_0004);
    blocks.u16_le(SC_SECURITY);
    blocks.u16_le(12);
    blocks.u32_le(security.0);
    blocks.u32_le(security.1);
    blocks.u16_le(SC_NET);
    // An odd number of channels is padded to a four-byte boundary, inside the
    // block's own length — which is how a real server writes it.
    let padding = (channels.len() % 2) * 2;
    blocks.u16_le(u16::try_from(8 + channels.len() * 2 + padding).unwrap());
    blocks.u16_le(1003);
    blocks.u16_le(u16::try_from(channels.len()).unwrap());
    for channel in channels {
        blocks.u16_le(*channel);
    }
    blocks.zeros(padding);
    let blocks = blocks.finish();

    let mut w = Writer::new();
    w.bytes(&CONNECT_DATA);
    per::write_length(&mut w, u16::try_from(blocks.len() + 20).unwrap());
    w.u8(0x14); // CHOICE: conferenceCreateResponse
    per::write_integer16(&mut w, 1002, 1001); // nodeID
    per::write_integer(&mut w, 1); // tag
    w.u8(0); // result: success
    w.u8(1); // one set of user data
    w.u8(0xC0); // CHOICE: h221NonStandard, value present
    per::write_octet_string(&mut w, SERVER_KEY, 4);
    per::write_octet_string(&mut w, &blocks, 0);
    w.finish()
}

#[test]
fn a_response_yields_the_numbers_every_later_pdu_is_addressed_with() {
    let decoded = ConferenceCreateResponse::decode(&response(&[1004, 1005], (0, 0))).unwrap();
    assert_eq!(decoded, ConferenceCreateResponse {
        io_channel: 1003,
        channels: vec![1004, 1005]
    });
}

/// A server asking for the RDP security layer is asking for something this client
/// does not do, and the connection has to end there rather than at the logon PDU.
#[test]
fn an_encrypted_session_is_refused_by_name() {
    let err = ConferenceCreateResponse::decode(&response(&[1004], (2, 0))).unwrap_err();
    assert_eq!(
        err.to_string(),
        "a GCC server data block carries an RDP encryption method 0x2, which this client does \
         not accept"
    );
    let err = ConferenceCreateResponse::decode(&response(&[1004], (0, 1))).unwrap_err();
    assert!(matches!(err, Malformed::Refused { field: "an RDP encryption level", .. }));
}

#[test]
fn an_answer_with_no_channel_block_is_an_error_rather_than_an_empty_list() {
    let mut bytes = response(&[1004], (0, 0));
    // Turn SC_NET into a block type nothing reads.
    let at = bytes.windows(2).position(|w| w == &SC_NET.to_le_bytes()[..]).unwrap();
    bytes[at..at + 2].copy_from_slice(&0x0C09_u16.to_le_bytes());
    assert!(ConferenceCreateResponse::decode(&bytes).is_err());
}

/// A block nobody asked for is stepped over, wherever it stands among the others.
#[test]
fn a_block_that_is_not_read_may_stand_anywhere() {
    let answer = |blocks: &[&[u8]]| {
        let blocks = blocks.concat();
        let mut w = Writer::new();
        w.bytes(&CONNECT_DATA);
        per::write_length(&mut w, u16::try_from(blocks.len() + 20).unwrap());
        w.u8(0x14);
        per::write_integer16(&mut w, 1002, 1001);
        per::write_integer(&mut w, 1);
        w.bytes(&[0, 1, 0xC0]);
        per::write_octet_string(&mut w, SERVER_KEY, 4);
        per::write_octet_string(&mut w, &blocks, 0);
        ConferenceCreateResponse::decode(&w.finish())
    };
    let security = [0x02, 0x0C, 12, 0, 0, 0, 0, 0, 0, 0, 0, 0];
    let network = [0x03, 0x0C, 10, 0, 0xEB, 3, 1, 0, 0xEC, 3];
    let unread = [0x09, 0x0C, 6, 0, 7, 7];
    let plain = answer(&[&security, &network]).unwrap();
    assert_eq!(plain, ConferenceCreateResponse { io_channel: 1003, channels: vec![1004] });
    assert_eq!(answer(&[&unread, &security, &network]).unwrap(), plain);
    assert_eq!(answer(&[&security, &unread, &network]).unwrap(), plain);
    assert_eq!(answer(&[&security, &network, &unread]).unwrap(), plain);
    assert!(answer(&[&security, &unread]).is_err());
}
