use rdp_client::proto::license::accept;

/// The whole PDU a Windows host sends: the security header, the preamble, the
/// error code, the state transition, and an empty error blob.
fn valid_client() -> Vec<u8> {
    vec![
        0x80, 0x00, 0x00, 0x00, // SEC_LICENSE_PKT
        0xFF, 0x03, 0x10, 0x00, // ERROR_ALERT, version 3, sixteen bytes
        0x07, 0x00, 0x00, 0x00, // STATUS_VALID_CLIENT
        0x02, 0x00, 0x00, 0x00, // ST_NO_TRANSITION
        0x04, 0x00, 0x00, 0x00, // an error blob of nothing
    ]
}

#[test]
fn the_answer_that_means_no_licence_is_needed_is_accepted() {
    assert_eq!(accept(&valid_client()), Ok(()));
}

#[test]
fn a_host_that_wants_a_licence_says_which_message_it_sent() {
    // A Server License Request, which is where a per-device exchange starts.
    let mut pdu = valid_client();
    pdu[4] = 0x01;
    assert_eq!(
        accept(&pdu).unwrap_err().to_string(),
        "a licensing PDU carries its message type 0x1, which this client does not accept"
    );
}

#[test]
fn an_error_alert_that_is_a_real_error_is_not_read_as_success() {
    // ERR_NO_LICENSE_SERVER.
    let mut pdu = valid_client();
    pdu[8] = 0x06;
    assert_eq!(
        accept(&pdu).unwrap_err().to_string(),
        "a licensing PDU carries its error code 0x6, which this client does not accept"
    );
}

#[test]
fn a_pdu_that_is_not_part_of_the_licensing_exchange_is_refused_at_its_header() {
    // A share control header, which is what arrives if the exchange is already
    // over and this is being read a PDU too late.
    let pdu = [0x1A, 0x01, 0x11, 0x00, 0xEA, 0x03, 0x00, 0x00, 0x00, 0x00, 0x00, 0x00];
    assert_eq!(
        accept(&pdu).unwrap_err().to_string(),
        "a licensing PDU carries its security flags 0x11a, which this client does not accept"
    );
}
