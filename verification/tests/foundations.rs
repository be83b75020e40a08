use rdp_client::framebuffer::{affordable, stage, Framebuffer, Rect};
use rdp_client::proto::dvc::{self, Incoming, Message};
use rdp_client::proto::rlgr::rlgr1;
use rdp_client::proto::share::{self, Pdu};
use rdp_client::proto::wavelet::{self, COEFFS};
use rdp_client::proto::wire::{Malformed, Reader, Writer};
use rdp_client::proto::x224::{self, ConnectionConfirm, ConnectionRequest, Security, TooLong};
use rdp_client::proto::{channel, der, info, license, per};
use rdp_client::table::Table;
use rdp_client::text::{push_decimal, push_hex, push_padded_hex, same_text, utf16_bytes};

/// What is written reads back, in either byte order, and a reader that runs out says where.
#[test]
fn numbers_read_back_in_either_order() {
    let mut w = Writer::new();
    w.u8(0xAB);
    w.u16_le(0x0102);
    w.u16_be(0x0102);
    w.u32_le(0x0102_0304);
    w.u32_be(0x0102_0304);
    w.zeros(2);
    let bytes = w.finish();
    assert_eq!(bytes, [0xAB, 2, 1, 1, 2, 4, 3, 2, 1, 1, 2, 3, 4, 0, 0]);
    let mut r = Reader::new("a test", &bytes);
    assert_eq!(r.u8(), Ok(0xAB));
    assert_eq!((r.u16_le(), r.u16_be()), (Ok(0x0102), Ok(0x0102)));
    assert_eq!((r.u32_le(), r.u32_be()), (Ok(0x0102_0304), Ok(0x0102_0304)));
    assert_eq!(r.rest(), &[0, 0]);
    let err = r.u32_le().unwrap_err();
    assert_eq!(err.to_string(), "a test is 15 bytes, and reading 4 more at offset 13 runs past the end");
    assert_eq!(r.at(), 13, "what is not read is not stepped over");
    r.skip(2).unwrap();
    assert!(r.is_empty());
}

#[test]
fn every_fault_is_a_sentence() {
    let r = Reader::new("a test", &[]);
    assert_eq!(r.refuse("a field", 0x1F).to_string(), "a test carries a field 0x1f, which this client does not accept");
    assert_eq!(r.missing("a field").to_string(), "a test does not carry a field");
    assert_eq!(r.report("it stopped", 0xAB).to_string(), "a test: it stopped (0x000000ab)");
}

#[test]
fn numbers_are_written_in_either_base() {
    let mut s = String::new();
    push_decimal(&mut s, 0);
    push_decimal(&mut s, 1024);
    push_hex(&mut s, 0xBEEF);
    push_padded_hex(&mut s, 0xA, 4);
    assert_eq!(s, "01024beef000a");
    assert_eq!(utf16_bytes("a\u{1F600}"), [b'a', 0, 0x3D, 0xD8, 0x00, 0xDE]);
    assert!(same_text("cliprdr", "cliprdr"));
    assert!(!same_text("cliprdr", "cliprd"));
}

/// A table holds its values by number, lowest first.
#[test]
fn a_table_holds_its_values_by_number() {
    let mut table: Table<u64> = Table::new();
    for (number, value) in [(7, 70), (3, 30), (9, 90), (3, 31)] {
        table.insert(number, value);
    }
    assert_eq!((table.get(3), table.get(4)), (Some(&31), None));
    assert_eq!(table.len(), 3);
    assert_eq!(table.list(), [3, 7, 9]);
    assert_eq!(table.remove(7), Some(70));
    assert_eq!(table.remove(7), None);
    assert!(!table.contains_key(7));
}

/// A PDU comes back out of its frame, and a connection request measures itself twice.
#[test]
fn a_frame_gives_back_what_it_was_put_round() {
    let frame = x224::data(&[1, 2, 3]).unwrap();
    assert_eq!(frame, [3, 0, 0, 10, 2, 0xF0, 0x80, 1, 2, 3]);
    assert_eq!(x224::data_payload(&frame), Ok(&[1, 2, 3][..]));
    assert_eq!(x224::data(&vec![0; 0xFFF9]), Err(TooLong(0xFFF9)));
    assert!(x224::data(&vec![0; 0xFFF8]).is_ok());
    assert!(x224::data_payload(&frame[..9]).is_err());
    let request = ConnectionRequest { cookie: None, protocols: Security::hybrid() }.encode().unwrap();
    assert_eq!(request, [3, 0, 0, 19, 14, 0xE0, 0, 0, 0, 0, 0, 1, 0, 8, 0, 2, 0, 0, 0]);
    assert!(x224::frame_length(&[2, 0, 0, 9]).is_err());
    assert!(x224::frame_length(&[3, 0, 0, 3]).is_err());
    let confirm = [3, 0, 0, 19, 14, 0xD0, 0, 0, 0, 0, 0, 2, 9, 8, 0, 2, 0, 0, 0];
    let negotiated = ConnectionConfirm::Negotiated { protocol: Security(2), flags: 9 };
    assert_eq!(ConnectionConfirm::decode(&confirm), Ok(negotiated));
}

/// A share's PDUs are told apart by their type, and data that was compressed is refused.
#[test]
fn a_share_pdu_is_read_as_what_it_is() {
    let data = share::data(share::FONT_MAP, 0x03EA, 0x0001_0021, &[1, 2]);
    let Ok(Pdu::Data(read)) = share::decode(&data) else { panic!("a data PDU") };
    assert_eq!((read.kind, read.body), (share::FONT_MAP, &[1, 2][..]));
    let mut compressed = data.clone();
    compressed[15] = 0x20;
    assert!(matches!(share::decode(&compressed), Err(Malformed::Refused { field: "its compression", value: 0x20, .. })));
    assert_eq!(share::decode(&[4, 0, 0x16, 0]), Ok(Pdu::DeactivateAll));
    assert!(share::decode(&data[..data.len() - 1]).is_err());
    let confirm = share::confirm_active(1007, &[9]);
    assert_eq!(confirm, [7, 0, 0x13, 0, 0xEF, 0x03, 9]);
}

/// A channel name is text up to its terminator; one that is not text is refused.
#[test]
fn a_channel_name_that_is_not_text_is_refused() {
    let mut incoming = Incoming::new();
    let named = [dvc::header(dvc::CREATE, 0, 0), 3, b'a', 0xC3, 0xA9, 0, b'z'];
    assert_eq!(incoming.push(&named), Ok(Some(Message::Create { channel: 3, name: "a\u{E9}" })));
    let broken = [dvc::header(dvc::CREATE, 0, 0), 3, b'a', 0xC3, 0];
    let err = incoming.push(&broken).unwrap_err();
    assert!(matches!(err, Malformed::Refused { field: "a channel name that is not text, of", value: 2, .. }));
}

/// DER's lengths and integers read back as they were written.
#[test]
fn der_values_read_back() {
    for value in [0_u32, 0x7F, 0x80, 0xFF, 0x8000, 0x0102_0304, u32::MAX] {
        let mut w = Writer::new();
        der::write_integer(&mut w, value);
        let bytes = w.finish();
        assert_eq!(der::read_integer(&mut Reader::new("a test", &bytes)), Ok(value));
    }
    let mut w = Writer::new();
    der::write_octet_string(&mut w, &[7; 300]);
    let bytes = w.finish();
    assert_eq!(&bytes[..4], &[der::OCTET_STRING, 0x82, 0x01, 0x2C]);
    assert_eq!(der::expect(&mut Reader::new("a test", &bytes), der::OCTET_STRING).unwrap(), &[7; 300]);
    assert_eq!(per::read_length(&mut Reader::new("a test", &[0x05])), Ok(5));
}

/// A component whose every low band is flat and whose every high band is nothing comes out
/// flat, at every level of the wavelet.
#[test]
fn a_flat_component_comes_out_flat() {
    assert_eq!(wavelet::line(&[9; 5], &[0; 4]), vec![9; 9]);
    let mut coeffs = vec![0_i16; COEFFS];
    for at in 4015..COEFFS {
        coeffs[at] = 9;
    }
    assert_eq!(wavelet::idwt(&coeffs), vec![9; COEFFS]);
    assert_eq!(rlgr1(&[0], 3), Ok(vec![0; 3]));
}

/// Damage is unioned where it overlaps, kept apart where it does not, and past the cap
/// merged where it wastes the fewest pixels.
#[test]
fn damage_keeps_its_shape_and_its_bound() {
    let rect = |x, y, width, height| Rect { x, y, width, height };
    let mut pending = vec![];
    stage(&mut pending, rect(0, 0, 4, 4), 2);
    stage(&mut pending, rect(2, 2, 4, 4), 2);
    assert_eq!(pending, [rect(0, 0, 6, 6)]);
    stage(&mut pending, rect(100, 0, 2, 2), 2);
    assert_eq!(pending.len(), 2);
    // Past the cap: the tile beside the second costs nothing there.
    stage(&mut pending, rect(102, 0, 2, 2), 2);
    assert_eq!(pending, [rect(0, 0, 6, 6), rect(100, 0, 4, 2)]);
    assert!(affordable(32766, 32766).is_err());
    let mut fb = Framebuffer::new();
    fb.resize(2, 1);
    assert!(fb.blit(&[1, 2, 3, 4], rect(1, 0, 1, 1)));
    assert_eq!(fb.with(|frame| frame.pixels.clone()), [0, 0, 0, 0, 1, 2, 3, 4]);
}

/// What is not a whole licensing PDU is short; a logon past 16 bits is refused; a channel
/// that asked to show its protocol says so on every chunk.
#[test]
fn the_edges_of_the_smaller_pdus() {
    assert!(matches!(license::accept(&[0x80]), Err(Malformed::Short { .. })));
    let name = "n".repeat(40_000);
    let logon = info::ClientInfo {
        username: &name,
        password: "",
        domain: None,
        address: info::Address::V4("10.0.0.2"),
        audio: true,
    };
    assert!(logon.encode().is_err());
    let whole = channel::pdu(&[1], channel::MIN_CHUNK).unwrap();
    assert_eq!(whole, [1, 0, 0, 0, 3, 0, 0, 0, 1]);
}
