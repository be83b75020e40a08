use rdp_client::proto::mcs::{
    attach_user_confirm, attach_user_request, channel_join_confirm, channel_join_request, connect_initial,
    connect_response, disconnect_provider_ultimatum, erect_domain_request, send_data_indication,
    send_data_request, ultimatum, DomainParameters, Indication, Reason, SendData, CONNECT_RESPONSE,
    DISCONNECT_PROVIDER_ULTIMATUM, DOMAIN_SELECTOR, MAX_SEND_DATA, SEND_DATA_INDICATION,
};
use rdp_client::proto::wire::{Malformed, Reader, Writer};
use rdp_client::proto::{der, x224};

/// The payload of a frame this module built, for inspecting what went on the wire.
fn payload(frame: &[u8]) -> &[u8] {
    x224::data_payload(frame).unwrap()
}

/// A frame carrying a PDU, the way a server would send one.
fn server(pdu: &[u8]) -> Vec<u8> {
    x224::data(pdu).unwrap()
}

#[test]
fn a_connect_initial_wraps_the_conference_in_the_parameters_the_server_expects() {
    let conference = vec![0xAB; 300];
    let bytes = connect_initial(&conference).unwrap();
    let mut r = Reader::new("a test", payload(&bytes));
    let mut fields = Reader::new("a test", der::expect_application(&mut r, 101).unwrap());
    assert!(r.is_empty());

    assert_eq!(der::expect(&mut fields, der::OCTET_STRING).unwrap(), &[DOMAIN_SELECTOR]);
    assert_eq!(der::expect(&mut fields, der::OCTET_STRING).unwrap(), &[DOMAIN_SELECTOR]);
    assert_eq!(der::expect(&mut fields, der::BOOLEAN).unwrap(), &[0xFF]);
    for expected in [34_u32, 1, 0xFFFF] {
        let mut parameters =
            Reader::new("a test", der::expect(&mut fields, der::SEQUENCE).unwrap());
        assert_eq!(der::read_integer(&mut parameters).unwrap(), expected);
    }
    assert_eq!(der::expect(&mut fields, der::OCTET_STRING).unwrap(), conference);
    assert!(fields.is_empty());
}

/// The response's user data is what the GCC decoder is given, and the fields
/// before it are stepped over rather than guessed at.
#[test]
fn a_connect_response_yields_the_conference_the_server_answered_with() {
    let mut body = Writer::new();
    der::write_tag(&mut body, der::ENUMERATED, 1);
    body.u8(0); // rt-successful
    der::write_integer(&mut body, 0); // calledConnectId
    DomainParameters::target().write(&mut body);
    der::write_octet_string(&mut body, &[1, 2, 3]);
    let body = body.finish();

    let mut w = Writer::new();
    der::write_application_tag(&mut w, CONNECT_RESPONSE, body.len());
    w.bytes(&body);
    assert_eq!(connect_response(&server(&w.finish())).unwrap(), &[1, 2, 3]);
}

#[test]
fn a_refused_connection_names_the_mcs_result_rather_than_decoding_on() {
    let mut body = Writer::new();
    der::write_tag(&mut body, der::ENUMERATED, 1);
    body.u8(1); // rt-domain-merging
    let body = body.finish();
    let mut w = Writer::new();
    der::write_application_tag(&mut w, CONNECT_RESPONSE, body.len());
    w.bytes(&body);

    let err = connect_response(&server(&w.finish())).unwrap_err();
    assert_eq!(
        err.to_string(),
        "an MCS Connect-Response carries a refusal to connect, MCS result 0x1, which this \
         client does not accept"
    );
}

/// The three fixed PDUs, byte for byte: they never vary, so a golden value is the
/// whole test.
#[test]
fn the_pdus_that_never_change_are_the_bytes_the_specification_gives() {
    assert_eq!(payload(&erect_domain_request()), &[0x04, 0x01, 0x00, 0x01, 0x00]);
    assert_eq!(payload(&attach_user_request()), &[0x28]);
    // User 1007 is six above the base; channel 1003 is not counted from anything.
    assert_eq!(payload(&channel_join_request(1007, 1003)), &[
        0x38, 0x00, 0x06, 0x03, 0xEB
    ]);
}

#[test]
fn a_confirm_yields_the_identifier_it_was_asked_for() {
    assert_eq!(attach_user_confirm(&server(&[0x2E, 0x00, 0x00, 0x06])).unwrap(), 1007);
    assert_eq!(
        channel_join_confirm(&server(&[0x3E, 0x00, 0x00, 0x06, 0x03, 0xEB, 0x03, 0xEB]))
            .unwrap(),
        1003
    );
}

#[test]
fn an_unsuccessful_confirm_is_an_error_rather_than_a_channel_number() {
    let err = channel_join_confirm(&server(&[0x3E, 0x03, 0x00, 0x06, 0x03, 0xEB, 0x00, 0x00]))
        .unwrap_err();
    assert!(matches!(err, Malformed::Refused { field: "an unsuccessful MCS result", .. }));
}

/// The answer a server that has decided to end the connection sends instead of
/// whatever was expected. Naming it is the difference between "wrong PDU" and
/// "the server hung up, and here is why".
#[test]
fn a_server_that_hangs_up_says_so_rather_than_being_read_as_a_wrong_pdu() {
    let err = attach_user_confirm(&server(&[0x21, 0x80])).unwrap_err();
    assert_eq!(
        err.to_string(),
        "an MCS Attach User Confirm carries a Disconnect Provider Ultimatum instead, whose \
         reason is 0x3, which this client does not accept"
    );

    let err = attach_user_confirm(&server(&[0x38, 0x00])).unwrap_err();
    assert!(matches!(err, Malformed::Refused { field: "an MCS PDU type", value: 14, .. }));
}

#[test]
fn send_data_goes_out_and_comes_back_on_the_channel_it_names() {
    let bytes = send_data_request(1007, 1003, b"hello").unwrap();
    assert_eq!(payload(&bytes), &[
        0x64, 0x00, 0x06, 0x03, 0xEB, 0x70, 0x05, b'h', b'e', b'l', b'l', b'o'
    ]);

    // A payload past 127 bytes needs PER's two-byte length, and the reader takes
    // either form.
    let long = send_data_request(1007, 1003, &[0xAB; 200]).unwrap();
    assert_eq!(payload(&long)[6..8], [0x80, 0xC8]);

    // The same shape with the indication's CHOICE, which is what a server sends.
    let mut indication = payload(&bytes).to_vec();
    indication[0] = SEND_DATA_INDICATION << 2;
    let indication = server(&indication);
    let decoded = send_data_indication(&indication).unwrap();
    assert_eq!(decoded, Indication::Data(SendData { channel: 1003, payload: b"hello" }));
}

/// The same two bytes each way, and the straddle is the whole of it: the reason
/// is split across them, so a reason above one is where a wrong mask shows up.
#[test]
fn leaving_the_conference_is_written_and_read_the_same_way() {
    let bytes = disconnect_provider_ultimatum(Reason::user_requested());
    assert_eq!(payload(&bytes), &[0x21, 0x80]);
    assert_eq!(ultimatum("a test", &[0x21, 0x80]).unwrap(), Some(Reason::user_requested()));
    for reason in 0..=4_u8 {
        let written = [
            (DISCONNECT_PROVIDER_ULTIMATUM << 2) | ((reason >> 1) & 0x03),
            reason << 7,
        ];
        let read = ultimatum("a test", &written).unwrap();
        assert_eq!(read, Some(Reason(reason)), "reason {reason}");
    }
}

/// Mid-session an ultimatum is the session ending, not a PDU in the wrong place —
/// which is the opposite of what it means during the connection sequence.
#[test]
fn a_server_that_hangs_up_on_a_live_session_is_read_as_the_end_of_it() {
    let frame = server(&[0x21, 0x80]);
    let decoded = send_data_indication(&frame).unwrap();
    assert_eq!(decoded, Indication::Disconnect(Reason(3)));
    let Indication::Disconnect(reason) = decoded else { panic!("a disconnect") };
    assert!(reason.is_orderly());
    assert_eq!(reason.to_string(), "the session was disconnected at the user's request (3)");
    assert!(!Reason(0).is_orderly(), "a domain that went away is not an orderly end");
    assert!(Reason(1).is_orderly(), "and a host that hung up on purpose is");
}

#[test]
fn a_payload_too_long_for_one_send_data_is_refused_rather_than_truncated() {
    assert!(send_data_request(1007, 1003, &vec![0; MAX_SEND_DATA + 1]).is_err());
}
