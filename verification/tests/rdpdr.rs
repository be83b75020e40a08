use rdp_client::proto::rdpdr::{
    Rdpdr, CAP_GENERAL, CLIENTID_CONFIRM, CORE, GENERAL_LENGTH, GENERAL_VERSION_2, SERVER_ANNOUNCE,
    SERVER_CAPABILITY, USER_LOGGEDON,
};

fn server(packet: u16, body: &[u8]) -> Vec<u8> {
    let mut v = CORE.to_le_bytes().to_vec();
    v.extend_from_slice(&packet.to_le_bytes());
    v.extend_from_slice(body);
    v
}

/// The announce is answered with a confirm at the lower of the two versions and
/// the client's name in UTF-16, terminator counted.
#[test]
fn the_announce_is_confirmed_at_the_lower_version_and_the_name_given() {
    let mut rdpdr = Rdpdr::new();
    let mut body = Vec::new();
    body.extend_from_slice(&1u16.to_le_bytes());
    body.extend_from_slice(&0x000Cu16.to_le_bytes()); // RDP 6.x's minor, below ours
    body.extend_from_slice(&0x0000_0007u32.to_le_bytes());
    let replies = rdpdr.push(&server(SERVER_ANNOUNCE, &body)).unwrap();
    assert_eq!(replies.len(), 2);
    assert_eq!(replies[0], [0x72, 0x44, 0x43, 0x43, 1, 0, 0x0C, 0, 7, 0, 0, 0]);
    let name = &replies[1];
    assert_eq!(&name[..4], &[0x72, 0x44, 0x4E, 0x43]);
    assert_eq!(&name[4..8], &1u32.to_le_bytes(), "Unicode");
    assert_eq!(&name[12..16], &16u32.to_le_bytes(), "seven characters and a terminator");
    assert_eq!(&name[16..18], b"r\0");
    assert_eq!(&name[28..30], b"x\0");
    assert_eq!(&name[30..], &[0, 0], "the terminator");
}

/// The capability request is answered with the general set alone, its I/O codes
/// the intersection with the server's; a client id confirm ends the handshake
/// with nothing to announce.
#[test]
fn capabilities_are_answered_with_the_general_set_alone() {
    let mut rdpdr = Rdpdr::new();
    let mut body = Vec::new();
    body.extend_from_slice(&2u16.to_le_bytes()); // numCapabilities
    body.extend_from_slice(&0u16.to_le_bytes());
    // General, version 2: osType, osVersion, 1.13, ioCode1 with two bits off.
    body.extend_from_slice(&CAP_GENERAL.to_le_bytes());
    body.extend_from_slice(&GENERAL_LENGTH.to_le_bytes());
    body.extend_from_slice(&GENERAL_VERSION_2.to_le_bytes());
    body.extend_from_slice(&[2, 0, 0, 0, 0, 0, 0, 0, 1, 0, 0x0D, 0]);
    body.extend_from_slice(&0x0000_FFFCu32.to_le_bytes());
    body.extend_from_slice(&[0; 20]);
    // A drive set, skipped by its length.
    body.extend_from_slice(&[4, 0, 8, 0, 2, 0, 0, 0]);
    let replies = rdpdr.push(&server(SERVER_CAPABILITY, &body)).unwrap();
    assert_eq!(replies.len(), 1);
    let caps = &replies[0];
    assert_eq!(&caps[..8], &[0x72, 0x44, 0x50, 0x43, 1, 0, 0, 0]);
    assert_eq!(&caps[8..16], &[1, 0, 44, 0, 2, 0, 0, 0]);
    assert_eq!(&caps[28..32], &0x0000_FFFCu32.to_le_bytes(), "the server's codes and ours");
    assert_eq!(caps.len(), 8 + 44);

    let confirm = rdpdr.push(&server(CLIENTID_CONFIRM, &[1, 0, 0x0D, 0, 9, 0, 0, 0])).unwrap();
    assert!(confirm.is_empty());
    assert_eq!(rdpdr.client_id, 9);
}

/// Another component, an unknown packet, and a logged-on notice each earn nothing;
/// a PDU cut short is an error.
#[test]
fn what_is_not_the_handshake_is_left_alone() {
    let mut rdpdr = Rdpdr::new();
    assert!(rdpdr.push(&[0x52, 0x50, 0x01, 0x00, 1, 2]).unwrap().is_empty(), "the printer component");
    assert!(rdpdr.push(&server(0x4952, &[0; 8])).unwrap().is_empty(), "an I/O request nobody asked for");
    assert!(rdpdr.push(&server(USER_LOGGEDON, &[])).unwrap().is_empty());
    assert!(rdpdr.push(&server(SERVER_ANNOUNCE, &[1, 0])).is_err());
}
