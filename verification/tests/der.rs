use rdp_client::proto::der::{
    certificate_public_key, context, expect, header, BIT_STRING, INTEGER, OCTET_STRING, SEQUENCE,
};
use rdp_client::proto::wire::{Malformed, Reader};

/// One tag-length-value, with the length in whichever form fits.
fn tlv(tag: u8, contents: &[u8]) -> Vec<u8> {
    let mut out = vec![tag];
    let length = contents.len();
    if length < 0x80 {
        out.push(u8::try_from(length).unwrap());
    } else {
        let bytes = length.to_be_bytes();
        let bytes = &bytes[bytes.iter().position(|b| *b != 0).unwrap()..];
        out.push(0x80 | u8::try_from(bytes.len()).unwrap());
        out.extend_from_slice(bytes);
    }
    out.extend_from_slice(contents);
    out
}

#[test]
fn a_length_is_read_in_both_forms() {
    let short = tlv(INTEGER, &[7]);
    assert_eq!(header(&mut Reader::new("a test", &short)).unwrap(), (INTEGER, 1));

    let long = tlv(OCTET_STRING, &vec![0; 300]);
    assert_eq!(header(&mut Reader::new("a test", &long)).unwrap(), (OCTET_STRING, 300));
    assert_eq!(expect(&mut Reader::new("a test", &long), OCTET_STRING).unwrap().len(), 300);
}

#[test]
fn a_length_this_reader_will_not_walk_is_refused() {
    // The indefinite form, and a reserved one.
    for first in [0x80_u8, 0xFF] {
        let bytes = [SEQUENCE, first, 0, 0];
        assert!(matches!(
            header(&mut Reader::new("a test", &bytes)).unwrap_err(),
            Malformed::Refused { .. }
        ));
    }
}

#[test]
fn an_unexpected_tag_ends_the_walk() {
    let bytes = tlv(INTEGER, &[7]);
    assert!(matches!(
        expect(&mut Reader::new("a test", &bytes), SEQUENCE).unwrap_err(),
        Malformed::Refused { field: "an ASN.1 tag", value: 2, .. }
    ));
}

/// A certificate shaped like the ones a Windows host sends: a version tag, five
/// fields nobody here reads, then the key.
fn certificate(version: bool, key: &[u8]) -> Vec<u8> {
    let mut fields = Vec::new();
    if version {
        fields.extend_from_slice(&tlv(context(0), &tlv(INTEGER, &[2])));
    }
    for _ in 0..5 {
        fields.extend_from_slice(&tlv(SEQUENCE, &[]));
    }
    let mut bits = vec![0];
    bits.extend_from_slice(key);
    let mut spki = tlv(SEQUENCE, &[]);
    spki.extend_from_slice(&tlv(BIT_STRING, &bits));
    fields.extend_from_slice(&tlv(SEQUENCE, &spki));

    let mut certificate = tlv(SEQUENCE, &fields);
    certificate.extend_from_slice(&tlv(SEQUENCE, &[]));
    tlv(SEQUENCE, &certificate)
}

#[test]
fn a_certificate_yields_its_public_key() {
    let key = vec![0xAB; 270];
    assert_eq!(certificate_public_key(&certificate(true, &key)).unwrap(), key);
    // A v1 certificate has no version tag, and the walk must not eat a field.
    assert_eq!(certificate_public_key(&certificate(false, &key)).unwrap(), key);
}

#[test]
fn a_certificate_that_is_not_one_is_an_error_rather_than_a_wrong_key() {
    assert!(certificate_public_key(&[]).is_err());
    assert!(certificate_public_key(&tlv(SEQUENCE, &[])).is_err());
    let truncated = certificate(true, &[1, 2, 3]);
    assert!(certificate_public_key(&truncated[..truncated.len() - 2]).is_err());
}
