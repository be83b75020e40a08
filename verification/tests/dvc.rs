use rdp_client::proto::dvc::{
    capabilities_response, close, create_response, data, header, Incoming, Message, ACCEPTED, BYTE,
    CAPABILITIES, CLOSE, CREATE, DATA, DATA_FIRST, LONG, MAX_DATA, NO_LISTENER, SHORT,
};
use rdp_client::proto::wire::Malformed;

/// A server PDU, built the way a server builds one.
fn server(command: u8, sp: u8, cb_id: u8, rest: &[u8]) -> Vec<u8> {
    let mut bytes = vec![header(command, sp, cb_id)];
    bytes.extend_from_slice(rest);
    bytes
}

#[test]
fn the_version_a_server_asks_for_is_the_one_that_goes_back() {
    let mut incoming = Incoming::new();
    let request = server(CAPABILITIES, BYTE, BYTE, &[0x00, 0x02, 0x00, 0, 0, 0, 0, 0, 0, 0, 0]);
    let Some(Message::Capabilities { version }) = incoming.push(&request).unwrap() else {
        panic!("a capabilities request");
    };
    assert_eq!(version, 2);
    assert_eq!(capabilities_response(version), vec![0x50, 0x00, 0x02, 0x00]);
}

#[test]
fn a_create_request_carries_the_name_the_answer_is_decided_by() {
    let mut incoming = Incoming::new();
    let request = server(CREATE, BYTE, BYTE, b"\x03Microsoft::Windows::RDS::DisplayControl\0");
    assert_eq!(
        incoming.push(&request).unwrap(),
        Some(Message::Create {
            channel: 3,
            name: "Microsoft::Windows::RDS::DisplayControl"
        })
    );

    assert_eq!(create_response(3, ACCEPTED), vec![0x10, 0x03, 0, 0, 0, 0]);
    assert_eq!(create_response(3, NO_LISTENER), vec![0x10, 0x03, 0x01, 0x00, 0x00, 0xC0]);
}

/// The width bits are the one place in RDP where a field's size is written rather
/// than fixed, in both directions.
#[test]
fn a_channel_number_is_written_as_narrowly_as_it_fits_and_read_as_wide_as_it_says() {
    assert_eq!(close(0x02), vec![0x40, 0x02]);
    assert_eq!(close(0x0102), vec![0x41, 0x02, 0x01]);
    assert_eq!(close(0x0001_0002), vec![0x42, 0x02, 0x00, 0x01, 0x00]);

    let mut incoming = Incoming::new();
    for (width, rest, expected) in [
        (BYTE, &[0x02][..], 0x02),
        (SHORT, &[0x02, 0x01][..], 0x0102),
        (LONG, &[0x02, 0x00, 0x01, 0x00][..], 0x0001_0002),
    ] {
        let pdu = server(CLOSE, BYTE, width, rest);
        assert_eq!(incoming.push(&pdu).unwrap(), Some(Message::Close { channel: expected }));
    }
}

#[test]
fn a_whole_data_pdu_arrives_borrowed_from_the_bytes_it_came_in() {
    let mut incoming = Incoming::new();
    let pdu = server(DATA, BYTE, BYTE, &[0x03, 1, 2, 3]);
    assert_eq!(
        incoming.push(&pdu).unwrap(),
        Some(Message::Data { channel: 3, data: &[1, 2, 3] })
    );
    assert_eq!(data(3, &[1, 2, 3]).unwrap(), pdu);
}

#[test]
fn the_pieces_of_a_split_payload_are_gathered_until_the_length_the_first_gave() {
    let mut incoming = Incoming::new();
    // A Data First whose length field is two bytes wide, saying six follow.
    let first = server(DATA_FIRST, SHORT, BYTE, &[0x03, 0x06, 0x00, 1, 2]);
    assert_eq!(incoming.push(&first).unwrap(), None);
    assert_eq!(incoming.push(&server(DATA, BYTE, BYTE, &[0x03, 3, 4])).unwrap(), None);
    assert_eq!(
        incoming.push(&server(DATA, BYTE, BYTE, &[0x03, 5, 6])).unwrap(),
        Some(Message::Data { channel: 3, data: &[1, 2, 3, 4, 5, 6] })
    );

    // And the next whole PDU is not appended to the one that finished.
    assert_eq!(
        incoming.push(&server(DATA, BYTE, BYTE, &[0x03, 7])).unwrap(),
        Some(Message::Data { channel: 3, data: &[7] })
    );
}

#[test]
fn a_piece_for_another_channel_is_refused_and_the_sequence_given_up_on() {
    let mut incoming = Incoming::new();
    let first = server(DATA_FIRST, BYTE, BYTE, &[0x03, 0x06, 1, 2]);
    assert_eq!(incoming.push(&first).unwrap(), None);
    let err = incoming.push(&server(DATA, BYTE, BYTE, &[0x04, 3])).unwrap_err();
    assert_eq!(
        err.to_string(),
        "a dynamic virtual channel PDU carries a piece for channel 0x4, which this client \
         does not accept"
    );

    // The sequence is gone, so the next PDU for the channel stands on its own.
    assert_eq!(
        incoming.push(&server(DATA, BYTE, BYTE, &[0x03, 9])).unwrap(),
        Some(Message::Data { channel: 3, data: &[9] })
    );
}

#[test]
fn a_command_this_client_has_no_answer_for_is_refused_by_number() {
    let mut incoming = Incoming::new();
    // Soft-Sync, which belongs to a multitransport tunnel this client never asks
    // for, and which a server therefore never has cause to send.
    let err = incoming.push(&server(0x08, BYTE, BYTE, &[0x00])).unwrap_err();
    assert!(matches!(err, Malformed::Refused { field: "a command", value: 8, .. }));
}

#[test]
fn a_payload_too_long_for_one_pdu_is_refused_rather_than_split() {
    assert_eq!(data(3, &[0; MAX_DATA + 1]).unwrap_err().to_string(),
        "a 1591-byte dynamic channel payload does not fit one PDU");
    assert!(data(3, &[0; MAX_DATA]).is_ok());
}
