use rdp_client::proto::finalization::{requests, response, Response, COOPERATE, REQUEST_CONTROL};
use rdp_client::proto::share::{self, Data};

fn answer(kind: u8, body: &[u8]) -> Vec<u8> {
    share::data(kind, 0x03EA, 0x0001_0021, body)
}

fn decoded(frame: &[u8]) -> Data<'_> {
    match share::decode(frame).unwrap() {
        share::Pdu::Data(data) => data,
        other => panic!("a data PDU, not {other:?}"),
    }
}

#[test]
fn the_four_requests_go_out_in_the_order_the_handshake_defines() {
    let pdus = requests(1007, 0x0001_0021);
    let kinds: Vec<_> = pdus.iter().map(|pdu| decoded(pdu).kind).collect();
    assert_eq!(kinds, vec![
        share::SYNCHRONIZE,
        share::CONTROL,
        share::CONTROL,
        share::FONT_LIST
    ]);
    // The two Control PDUs differ only in their action, and the order matters:
    // cooperating before asking to drive is what a server expects.
    assert_eq!(&decoded(&pdus[1]).body[..2], &COOPERATE.to_le_bytes());
    assert_eq!(&decoded(&pdus[2]).body[..2], &REQUEST_CONTROL.to_le_bytes());
}

#[test]
fn a_synchronize_names_this_clients_own_channel() {
    let pdus = requests(1007, 1);
    assert_eq!(decoded(&pdus[0]).body, &[0x01, 0x00, 0xEF, 0x03]);
}

#[test]
fn the_font_list_says_it_is_the_whole_list_of_nothing() {
    let pdus = requests(1007, 1);
    assert_eq!(decoded(&pdus[3]).body, &[0x00, 0x00, 0x00, 0x00, 0x03, 0x00, 0x32, 0x00]);
}

#[test]
fn each_answer_is_recognised_by_what_it_is_rather_than_by_when_it_came() {
    let sync = answer(share::SYNCHRONIZE, &[0x01, 0x00, 0xEA, 0x03]);
    assert_eq!(response(&decoded(&sync)).unwrap(), Response::Synchronize);

    let cooperate = answer(share::CONTROL, &[0x04, 0x00, 0x00, 0x00, 0x00, 0x00, 0x00, 0x00]);
    assert_eq!(response(&decoded(&cooperate)).unwrap(), Response::Cooperate);

    let granted = answer(share::CONTROL, &[0x02, 0x00, 0xEF, 0x03, 0xEA, 0x03, 0x00, 0x00]);
    assert_eq!(response(&decoded(&granted)).unwrap(), Response::ControlGranted);

    let map = answer(share::FONT_MAP, &[0x00, 0x00, 0x00, 0x00, 0x03, 0x00, 0x04, 0x00]);
    assert_eq!(response(&decoded(&map)).unwrap(), Response::FontMap);
}

#[test]
fn a_logon_notification_is_stepped_past_rather_than_being_a_wrong_answer() {
    let session = answer(share::SAVE_SESSION_INFO, &[0x00; 20]);
    assert_eq!(response(&decoded(&session)).unwrap(), Response::Aside);
    // As is a Set Error Info that reports no error, which Windows does send.
    let quiet = answer(share::SET_ERROR_INFO, &[0x00, 0x00, 0x00, 0x00]);
    assert_eq!(response(&decoded(&quiet)).unwrap(), Response::Aside);
}

#[test]
fn a_refused_logon_becomes_the_sentence_the_server_sent_rather_than_a_timeout() {
    let denied = answer(share::SET_ERROR_INFO, &0x0000_0009_u32.to_le_bytes());
    assert_eq!(
        response(&decoded(&denied)).unwrap_err().to_string(),
        "the server ended the session: the account is not allowed to log on to this host \
         (0x00000009)"
    );

    let unknown = answer(share::SET_ERROR_INFO, &0x0000_10CA_u32.to_le_bytes());
    assert_eq!(
        response(&decoded(&unknown)).unwrap_err().to_string(),
        "the server ended the session: for a reason this client has no name for (0x000010ca)"
    );
}

#[test]
fn a_pdu_this_handshake_has_no_place_for_names_its_type() {
    let update = answer(0x02, &[0x00; 8]);
    assert_eq!(
        response(&decoded(&update)).unwrap_err().to_string(),
        "a share data PDU during connection finalization carries its type 0x2, which this \
         client does not accept"
    );
}
