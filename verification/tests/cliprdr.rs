use rdp_client::proto::cliprdr::{
    capabilities, data_request, data_response, decode, format_list, format_list_response, formats,
    header, Message, CAPS_VERSION_2, CLIP_CAPS, FORMAT_DATA_REQUEST, FORMAT_DATA_RESPONSE, FORMAT_LIST,
    FORMAT_LIST_RESPONSE, HEADER, MONITOR_READY, RESPONSE_OK, SHORT_NAME,
};
use rdp_client::proto::wire::{Malformed, Writer};

/// `CF_UNICODETEXT`, the one format carried here.
const TEXT: u32 = 13;

/// A PDU as a server writes one.
fn pdu(kind: u16, flags: u16, body: &[u8]) -> Vec<u8> {
    let mut w = Writer::new();
    header(&mut w, kind, flags, body.len() as u32);
    w.bytes(body);
    w.finish()
}

/// The server says what it can do before it says its clipboard is ready. What it
/// offers changes nothing here, and is read so that it can be said out loud.
#[test]
fn the_servers_capabilities_are_read_for_the_record() {
    // Byte for byte what a Windows 11 host sends: version 2, and the five flags
    // that come with file transfer and clipboard locking.
    let windows = pdu(CLIP_CAPS, 0, &[
        0x01, 0x00, 0x00, 0x00, // one set, pad
        0x01, 0x00, 0x0C, 0x00, // CB_CAPSTYPE_GENERAL, 12 bytes
        0x02, 0x00, 0x00, 0x00, // CB_CAPS_VERSION_2
        0x3E, 0x00, 0x00, 0x00, // long names, file clip, locking, huge files
    ]);
    assert_eq!(decode(&windows).unwrap(), Message::Capabilities { version: 2, flags: 0x3E });

    // This client's own, through the same decoder: one set and no flags at all.
    assert_eq!(
        decode(&capabilities()).unwrap(),
        Message::Capabilities { version: CAPS_VERSION_2, flags: 0 }
    );

    // A server with nothing to say, and one whose set this client does not know:
    // both are a clipboard that works, so neither is an error.
    let empty = pdu(CLIP_CAPS, 0, &[0, 0, 0, 0]);
    assert_eq!(decode(&empty).unwrap(), Message::Capabilities { version: 0, flags: 0 });
    let unknown = [0x01, 0x00, 0x00, 0x00, 0x09, 0x00, 0x06, 0x00, 0xAB, 0xCD];
    let other = pdu(CLIP_CAPS, 0, &unknown);
    assert_eq!(decode(&other).unwrap(), Message::Capabilities { version: 0, flags: 0 });
}

/// A capability set whose length does not even cover its own header would leave
/// the reader where it started — once per set, forever.
#[test]
fn cliprdr_a_capability_set_shorter_than_its_own_header_is_refused() {
    let lying = pdu(CLIP_CAPS, 0, &[0x01, 0x00, 0x00, 0x00, 0x01, 0x00, 0x02, 0x00]);
    assert!(matches!(decode(&lying).unwrap_err(), Malformed::Refused { .. }));
}

#[test]
fn the_servers_opening_pdu_is_read_as_the_one_that_needs_answering() {
    let ready = pdu(MONITOR_READY, 0, &[]);
    assert_eq!(decode(&ready).unwrap(), Message::MonitorReady);
}

/// The capability exchange is what settles the shape of every format list after
/// it, so these bytes are worth pinning: one general set, version 2, no flags.
#[test]
fn the_capabilities_ask_for_short_names_and_nothing_else() {
    assert_eq!(
        capabilities(),
        vec![
            0x07, 0x00, // CB_CLIP_CAPS
            0x00, 0x00, // no flags
            0x10, 0x00, 0x00, 0x00, // 16 bytes of body
            0x01, 0x00, // one capability set
            0x00, 0x00, // pad
            0x01, 0x00, // CB_CAPSTYPE_GENERAL
            0x0C, 0x00, // 12 bytes
            0x02, 0x00, 0x00, 0x00, // CB_CAPS_VERSION_2
            0x00, 0x00, 0x00, 0x00, // no long names, no files, no locking
        ]
    );
}

#[test]
fn a_format_list_is_one_short_name_entry_per_format() {
    let list = format_list(&[TEXT]);
    assert_eq!(list.len(), HEADER + SHORT_NAME);
    assert_eq!(&list[..8], &[0x02, 0x00, 0x00, 0x00, 0x24, 0x00, 0x00, 0x00]);
    assert_eq!(&list[8..12], &[0x0D, 0x00, 0x00, 0x00]);
    assert!(list[12..].iter().all(|&byte| byte == 0), "the name field is empty");

    // And it reads back as what it said, through the same decoder a server's
    // list goes through.
    let Message::Formats(body) = decode(&list).unwrap() else { panic!("not a format list") };
    assert_eq!(formats(body).unwrap(), vec![TEXT]);
}

/// Advertising nothing is what a client with an empty clipboard says, and it is
/// not the same as saying nothing.
#[test]
fn an_empty_clipboard_is_advertised_as_an_empty_list() {
    let list = format_list(&[]);
    assert_eq!(list, vec![0x02, 0x00, 0x00, 0x00, 0x00, 0x00, 0x00, 0x00]);
    let Message::Formats(body) = decode(&list).unwrap() else {
        panic!("not a format list")
    };
    assert!(formats(body).unwrap().is_empty());
}

/// What a Windows host sends after a copy in Notepad: several formats, in the
/// short form the capability exchange settled on.
#[test]
fn a_servers_short_name_list_gives_up_its_ids() {
    let mut body = Vec::new();
    for format in [TEXT, 1, 16, 7] {
        body.extend_from_slice(&format.to_le_bytes());
        body.extend_from_slice(&[0; 32]);
    }
    let announced = pdu(FORMAT_LIST, 0, &body);
    let Message::Formats(list) = decode(&announced).unwrap() else {
        panic!("not a format list")
    };
    assert_eq!(formats(list).unwrap(), vec![TEXT, 1, 16, 7]);
}

/// A server that uses long names anyway still copied something. The ids are at
/// the front of each entry either way, and the entries are what tell the two
/// forms apart: a whole number of short ones, or not.
#[test]
fn a_long_name_list_is_read_when_it_cannot_be_short_ones() {
    let mut body = Vec::new();
    body.extend_from_slice(&TEXT.to_le_bytes());
    body.extend_from_slice(&[0, 0]); // an empty name
    body.extend_from_slice(&49_u32.to_le_bytes());
    for unit in "Rich Text Format".encode_utf16().chain(std::iter::once(0)) {
        body.extend_from_slice(&unit.to_le_bytes());
    }
    assert!(!body.len().is_multiple_of(SHORT_NAME), "this list cannot be short names");
    assert_eq!(formats(&body).unwrap(), vec![TEXT, 49]);
}

/// A name field that never terminates is a truncated PDU, not a loop.
#[test]
fn an_unterminated_long_name_is_short_rather_than_endless() {
    let body = [TEXT.to_le_bytes().as_slice(), &[0x41, 0x00, 0x42]].concat();
    assert!(matches!(formats(&body).unwrap_err(), Malformed::Short { .. }));
}

#[test]
fn a_paste_names_the_format_it_is_waiting_for() {
    let request = data_request(TEXT);
    assert_eq!(request, vec![0x04, 0x00, 0x00, 0x00, 0x04, 0x00, 0x00, 0x00, 0x0D, 0, 0, 0]);
    assert_eq!(decode(&request).unwrap(), Message::DataRequest { format: TEXT });
    // And a request for a format nobody offered still reads: what to do about one
    // is the caller's, and it has to answer it either way.
    let other = data_request(0xDEAD);
    assert_eq!(decode(&other).unwrap(), Message::DataRequest { format: 0xDEAD });
}

/// The two answers to a request, and the bit that tells them apart. A body
/// without `CB_RESPONSE_OK` is not data that happens to be unvouched for — it is
/// the failure.
#[test]
fn a_response_is_data_only_when_the_peer_said_it_succeeded() {
    let body = [b'h', 0, b'i', 0, 0, 0];
    let (answered, failed, empty) = (
        pdu(FORMAT_DATA_RESPONSE, RESPONSE_OK, &body),
        pdu(FORMAT_DATA_RESPONSE, 0x0002, &body),
        pdu(FORMAT_DATA_RESPONSE, 0, &[]),
    );
    assert_eq!(decode(&answered).unwrap(), Message::Data(Some(&body[..])));
    assert_eq!(decode(&failed).unwrap(), Message::Data(None));
    assert_eq!(decode(&empty).unwrap(), Message::Data(None));
}

#[test]
fn what_this_client_answers_a_paste_with_says_which_of_the_two_it_is() {
    let bytes = [b'h', 0, b'i', 0, 0, 0];
    let (answered, refused, empty) =
        (data_response(Some(&bytes)), data_response(None), data_response(Some(&[])));
    assert_eq!(decode(&answered).unwrap(), Message::Data(Some(&bytes[..])));
    assert_eq!(decode(&refused).unwrap(), Message::Data(None));
    // An empty answer is the refusal too: this client only ever has bytes for
    // text it is holding.
    assert_eq!(decode(&empty).unwrap(), Message::Data(None));
}

#[test]
fn the_answer_to_a_format_list_carries_whether_it_was_taken() {
    let (taken, failed) =
        (format_list_response(), pdu(FORMAT_LIST_RESPONSE, 0x0002, &[]));
    assert_eq!(decode(&taken).unwrap(), Message::ListResponse { ok: true });
    assert_eq!(decode(&failed).unwrap(), Message::ListResponse { ok: false });
}

/// The PDUs of the two features this client did not ask for. A server should not
/// send them, and one that does is ignored by number rather than ending the
/// session over a clipboard.
#[test]
fn the_pdus_of_features_that_were_not_asked_for_are_ignored_by_number() {
    for kind in [0x0006, 0x0008, 0x0009, 0x000A, 0x000B] {
        let other = pdu(kind, 0, &[1, 2, 3]);
        assert_eq!(decode(&other).unwrap(), Message::Ignored(kind));
    }
}

/// Both of these come off a socket, so neither may panic.
#[test]
fn a_truncated_pdu_is_short_rather_than_a_panic() {
    assert!(matches!(decode(&[0x01, 0x00, 0x00]).unwrap_err(), Malformed::Short { .. }));
    // A header announcing a body that is not there.
    let lying = pdu(FORMAT_DATA_RESPONSE, RESPONSE_OK, &[1, 2, 3]);
    assert!(matches!(decode(&lying[..HEADER + 1]).unwrap_err(), Malformed::Short { .. }));
    // A request whose body is too short for the format id it should carry.
    let mut w = Writer::new();
    header(&mut w, FORMAT_DATA_REQUEST, 0, 2);
    w.bytes(&[0x0D, 0x00]);
    assert!(matches!(decode(&w.finish()).unwrap_err(), Malformed::Short { .. }));
}

/// Padding past the announced length is not part of what the peer said, and the
/// fields before it still read.
#[test]
fn padding_past_the_announced_length_is_not_part_of_the_body() {
    let mut w = Writer::new();
    header(&mut w, FORMAT_DATA_RESPONSE, RESPONSE_OK, 2);
    w.bytes(&[b'A', 0, 0xFF, 0xFF]);
    assert_eq!(decode(&w.finish()).unwrap(), Message::Data(Some(&[b'A', 0][..])));
}
