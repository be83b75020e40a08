use rdp_client::proto::desktop::{error_info, repaint, ALLOW, REFRESH_RECT, SUPPRESS_OUTPUT};
use rdp_client::proto::share;

fn decoded(frame: &[u8]) -> share::Data<'_> {
    match share::decode(frame).unwrap() {
        share::Pdu::Data(data) => data,
        other => panic!("a data PDU, not {other:?}"),
    }
}

/// Off and on again, which is what makes a host that ignores Refresh Rect paint
/// the desktop. The order is the whole of it: the second PDU alone asks for
/// nothing.
#[test]
fn a_server_that_suppresses_output_is_asked_that_way_and_in_that_order() {
    let pdus = repaint(1007, 0x0001_0021, 1920, 1080, true, true);
    assert_eq!(pdus.len(), 2, "a server that offers both is asked the reliable way");
    let off = decoded(&pdus[0]);
    assert_eq!(off.kind, SUPPRESS_OUTPUT);
    assert_eq!(off.body, &[0, 0, 0, 0], "no rectangle goes with a suppression");
    let on = decoded(&pdus[1]);
    assert_eq!(on.kind, SUPPRESS_OUTPUT);
    assert_eq!(on.body, &[ALLOW, 0, 0, 0, 0, 0, 0, 0, 0x7F, 0x07, 0x37, 0x04]);
}

#[test]
fn a_server_that_only_refreshes_rectangles_is_asked_for_the_whole_desktop() {
    let pdus = repaint(1007, 0x0001_0021, 1920, 1080, true, false);
    assert_eq!(pdus.len(), 1);
    let refresh = decoded(&pdus[0]);
    assert_eq!(refresh.kind, REFRESH_RECT);
    assert_eq!(refresh.body, &[1, 0, 0, 0, 0, 0, 0, 0, 0x7F, 0x07, 0x37, 0x04]);
}

/// A server that offers neither is asked for nothing rather than sent a PDU it
/// said it would not read.
#[test]
fn a_server_that_offers_neither_way_is_not_asked() {
    assert!(repaint(1007, 1, 1920, 1080, false, false).is_empty());
}

#[test]
fn a_quiet_error_info_is_the_server_saying_nothing_is_wrong() {
    error_info(&[0, 0, 0, 0]).expect("a code of zero is not an error");
}

#[test]
fn an_error_info_becomes_the_sentence_the_server_meant_by_it() {
    let err = error_info(&0x0000_0009_u32.to_le_bytes()).unwrap_err();
    assert_eq!(
        err.to_string(),
        "the server ended the session: the account is not allowed to log on to this host \
         (0x00000009)"
    );
    let err = error_info(&0x0000_10CA_u32.to_le_bytes()).unwrap_err();
    assert_eq!(
        err.to_string(),
        "the server ended the session: for a reason this client has no name for (0x000010ca)"
    );
}
