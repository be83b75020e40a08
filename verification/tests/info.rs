use rdp_client::proto::info::{Address, ClientInfo, ADDRESS_INET, ADDRESS_INET6, NO_AUDIO, TIME_ZONE};
use rdp_client::text::utf16_bytes;

fn logon() -> ClientInfo<'static> {
    ClientInfo {
        username: "andrew",
        password: "secret",
        domain: None,
        address: Address::V4("10.0.0.2"),
        audio: false,
    }
}

/// A target that asked for sound leaves `INFO_NOAUDIOPLAYBACK` out; one that did
/// not says it, so the host redirects nothing.
#[test]
fn the_no_audio_flag_follows_whether_sound_was_asked_for() {
    let flags = |audio: bool| {
        let bytes = ClientInfo { audio, ..logon() }.encode().unwrap();
        u32::from_le_bytes(bytes[8..12].try_into().unwrap())
    };
    assert_eq!(flags(false) & NO_AUDIO, NO_AUDIO);
    assert_eq!(flags(true) & NO_AUDIO, 0);
}

#[test]
fn the_pdu_says_it_is_the_logon_and_asks_to_be_logged_on() {
    let bytes = logon().encode().unwrap();
    assert_eq!(&bytes[..4], &[0x40, 0x00, 0x00, 0x00]);
    assert_eq!(&bytes[4..8], &[0x00; 4]);
    let flags = u32::from_le_bytes(bytes[8..12].try_into().unwrap());
    assert_eq!(flags & 0x0000_0008, 0x0000_0008, "INFO_AUTOLOGON");
    assert_eq!(flags & 0x0000_0010, 0x0000_0010, "INFO_UNICODE");
    assert_eq!(flags & 0x0000_0080, 0, "no bulk compression is asked for");
}

#[test]
fn a_name_is_measured_without_its_terminator_and_written_with_one() {
    let bytes = logon().encode().unwrap();
    // Domain, user name, password, alternate shell, working directory.
    assert_eq!(&bytes[12..22], &[0, 0, 12, 0, 12, 0, 0, 0, 0, 0]);
    // Then the same five, each terminated: an empty domain is two bytes.
    assert_eq!(&bytes[22..24], &[0, 0]);
    assert_eq!(&bytes[24..36], &utf16_bytes("andrew")[..]);
    assert_eq!(&bytes[36..38], &[0, 0]);
}

#[test]
fn an_address_is_measured_with_its_terminator_because_absent_is_not_empty() {
    let bytes = logon().encode().unwrap();
    // Past the five strings: 24 + 12 + 2 + 12 + 2 + 2 + 2.
    let at = 24 + 12 + 2 + 12 + 2 + 2 + 2;
    assert_eq!(&bytes[at..at + 2], &ADDRESS_INET.to_le_bytes());
    let announced = u16::from_le_bytes(bytes[at + 2..at + 4].try_into().unwrap());
    assert_eq!(usize::from(announced), utf16_bytes("10.0.0.2").len() + 2);
}

#[test]
fn an_ipv6_client_says_so_in_the_family_rather_than_in_the_address() {
    let info = ClientInfo { address: Address::V6("fd::1"), ..logon() };
    let bytes = info.encode().unwrap();
    assert!(
        bytes.windows(2).any(|pair| pair == &ADDRESS_INET6.to_le_bytes()[..]),
        "the family field says INET6"
    );
}

#[test]
fn the_session_looks_the_way_mstsc_would_leave_it() {
    let bytes = logon().encode().unwrap();
    let performance = u32::from_le_bytes(bytes[bytes.len() - 4..].try_into().unwrap());
    assert_eq!(performance, 0x180, "font smoothing and composition on, nothing disabled");
    // And the time zone before it is the server's, not ours.
    let zone = bytes.len() - 4 - 4 - TIME_ZONE;
    assert!(bytes[zone..zone + TIME_ZONE].iter().all(|byte| *byte == 0));
}
