use rdp_client::proto::per::{
    expect_octet_string, length_size, read_integer, read_integer16, read_length, read_octet_string, write_integer,
    write_integer16, write_length, write_octet_string, MAX_LENGTH,
};
use rdp_client::proto::wire::{Malformed, Reader, Writer};

fn written(f: impl FnOnce(&mut Writer)) -> Vec<u8> {
    let mut w = Writer::new();
    f(&mut w);
    w.finish()
}

#[test]
fn a_length_changes_form_at_128() {
    assert_eq!(written(|w| write_length(w, 0x7F)), vec![0x7F]);
    assert_eq!(written(|w| write_length(w, 0x80)), vec![0x80, 0x80]);
    assert_eq!(written(|w| write_length(w, MAX_LENGTH)), vec![0xFF, 0xFF]);
    assert_eq!(length_size(0x7F), 1);
    assert_eq!(length_size(0x80), 2);

    for length in [0_u16, 1, 0x7F, 0x80, 0x1234, MAX_LENGTH] {
        let bytes = written(|w| write_length(w, length));
        assert_eq!(bytes.len(), length_size(length));
        assert_eq!(read_length(&mut Reader::new("a test", &bytes)).unwrap(), length);
    }
}

/// The bit PER reserves for fragmentation, which RDP spends on length.
#[test]
fn the_two_byte_form_carries_fifteen_bits() {
    assert_eq!(read_length(&mut Reader::new("a test", &[0xC1, 0x23])).unwrap(), 0x4123);
    assert_eq!(written(|w| write_length(w, 0x4123)), vec![0xC1, 0x23]);
}

#[test]
fn an_integer_takes_the_fewest_bytes_that_hold_it() {
    assert_eq!(written(|w| write_integer(w, 0)), vec![1, 0]);
    assert_eq!(written(|w| write_integer(w, 0xFF)), vec![1, 0xFF]);
    assert_eq!(written(|w| write_integer(w, 0x0100)), vec![2, 0x01, 0x00]);
    assert_eq!(written(|w| write_integer(w, 0x0001_0000)), vec![4, 0, 1, 0, 0]);

    for value in [0_u32, 1, 0xFF, 0x100, 0xFFFF, 0x1_0000, u32::MAX] {
        let bytes = written(|w| write_integer(w, value));
        assert_eq!(read_integer(&mut Reader::new("a test", &bytes)).unwrap(), value);
    }
}

/// The bound is part of the field, not decoration: 1001 on the wire is user 2002
/// and channel 1001.
#[test]
fn a_bounded_integer_is_the_distance_from_its_bound() {
    assert_eq!(written(|w| write_integer16(w, 1004, 1001)), vec![0x00, 0x03]);
    assert_eq!(written(|w| write_integer16(w, 1004, 0)), vec![0x03, 0xEC]);
    assert_eq!(read_integer16(&mut Reader::new("a test", &[0x00, 0x03]), 1001).unwrap(), 1004);
    assert_eq!(read_integer16(&mut Reader::new("a test", &[0x00, 0x03]), 0).unwrap(), 3);
    assert!(read_integer16(&mut Reader::new("a test", &[0xFF, 0xFF]), 1001).is_err());
}

#[test]
fn a_fixed_size_octet_string_writes_no_length_of_its_own() {
    assert_eq!(written(|w| write_octet_string(w, b"Duca", 4)), b"\x00Duca".to_vec());
    assert_eq!(written(|w| write_octet_string(w, b"ab", 0)), b"\x02ab".to_vec());

    let mut r = Reader::new("a test", b"\x00McDn");
    expect_octet_string(&mut r, "an H.221 key", b"McDn").unwrap();
    assert!(r.is_empty());

    let mut r = Reader::new("a test", b"\x00Duca");
    let err = expect_octet_string(&mut r, "an H.221 key", b"McDn").unwrap_err();
    assert!(matches!(err, Malformed::Refused { field: "an H.221 key", .. }));
}

/// An octet string reads back as it was written, and leaves nothing over.
#[test]
fn an_octet_string_reads_back_as_it_was_written() {
    let bytes = written(|w| write_octet_string(w, &[7; 200], 4));
    assert_eq!(bytes[..2], [0x80, 196]);
    let mut r = Reader::new("test", &bytes);
    assert_eq!(read_octet_string(&mut r, 4).unwrap(), [7; 200]);
    assert!(r.is_empty());
}
