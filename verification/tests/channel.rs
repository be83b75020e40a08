use rdp_client::proto::channel::{pdu, Reassembly, COMPRESSED, FIRST, LAST, MIN_CHUNK};
use rdp_client::proto::wire::{Malformed, Writer};

/// A chunk as a server writes one, for feeding to [`Reassembly`].
fn chunk(total: usize, flags: u32, data: &[u8]) -> Vec<u8> {
    let mut w = Writer::new();
    w.u32_le(u32::try_from(total).unwrap());
    w.u32_le(flags);
    w.bytes(data);
    w.finish()
}

#[test]
fn a_pdu_that_fits_one_chunk_is_written_whole() {
    let bytes = pdu(b"hello", MIN_CHUNK).unwrap();
    assert_eq!(bytes, chunk(5, FIRST | LAST, b"hello"));
}

/// Nothing this client sends is near a chunk, so the splitter that would be
/// needed is an error instead — a loud one, rather than a truncated PDU.
#[test]
fn a_pdu_too_long_for_one_chunk_is_refused_rather_than_split() {
    let err = pdu(&[0; MIN_CHUNK + 1], MIN_CHUNK).unwrap_err();
    assert_eq!(
        err.to_string(),
        "a 1601-byte channel PDU does not fit the server's 1600-byte chunk"
    );
}

/// A chunk may be of any size: what counts is that the PDU fits it.
#[test]
fn a_pdu_fits_a_chunk_of_any_size() {
    let bytes = pdu(&[1, 2], usize::MAX).unwrap();
    assert_eq!(bytes, [2, 0, 0, 0, 3, 0, 0, 0, 1, 2]);
    assert_eq!(Reassembly::new().push(&bytes).unwrap(), Some(&[1, 2][..]));
}

#[test]
fn a_whole_pdu_arrives_borrowed_from_the_chunk_it_came_in() {
    let mut reassembly = Reassembly::new();
    let bytes = chunk(3, FIRST | LAST, &[1, 2, 3]);
    assert_eq!(reassembly.push(&bytes).unwrap(), Some(&[1, 2, 3][..]));
}

#[test]
fn the_pieces_of_a_long_pdu_are_gathered_until_the_last_one() {
    let mut reassembly = Reassembly::new();
    assert_eq!(reassembly.push(&chunk(6, FIRST, &[1, 2])).unwrap(), None);
    assert_eq!(reassembly.push(&chunk(6, 0, &[3, 4])).unwrap(), None);
    assert_eq!(
        reassembly.push(&chunk(6, LAST, &[5, 6])).unwrap(),
        Some(&[1, 2, 3, 4, 5, 6][..])
    );

    // And the reassembler is ready for the next PDU rather than holding the last.
    assert_eq!(reassembly.push(&chunk(1, FIRST | LAST, &[7])).unwrap(), Some(&[7][..]));
}

#[test]
fn a_sequence_that_does_not_add_up_is_refused_and_given_up_on() {
    let mut reassembly = Reassembly::new();
    assert_eq!(reassembly.push(&chunk(6, FIRST, &[1, 2])).unwrap(), None);
    let err = reassembly.push(&chunk(6, LAST, &[3])).unwrap_err();
    assert_eq!(
        err.to_string(),
        "a virtual channel PDU carries chunks coming to 0x3, which this client does not accept"
    );

    // The sequence is gone, so the next chunk has to start one.
    let err = reassembly.push(&chunk(6, LAST, &[4])).unwrap_err();
    assert!(matches!(
        err,
        Malformed::Refused { field: "a chunk that continues nothing, whose flags are", .. }
    ));
}

#[test]
fn a_second_start_inside_an_unfinished_pdu_is_refused() {
    let mut reassembly = Reassembly::new();
    assert_eq!(reassembly.push(&chunk(6, FIRST, &[1, 2])).unwrap(), None);
    let err = reassembly.push(&chunk(2, FIRST | LAST, &[1, 2])).unwrap_err();
    let field = "a first chunk inside an unfinished PDU, whose flags are";
    assert!(matches!(err, Malformed::Refused { field: refused, .. } if refused == field));
}

/// No compression was claimed, so compressed data is not something to try to
/// read — the length in the header is not even the length of what follows.
#[test]
fn compressed_channel_data_is_refused_by_name() {
    let mut reassembly = Reassembly::new();
    let err = reassembly.push(&chunk(2, FIRST | LAST | COMPRESSED, &[1])).unwrap_err();
    assert_eq!(
        err.to_string(),
        "a virtual channel PDU carries compressed channel data, whose flags are 0x200003, \
         which this client does not accept"
    );
}

#[test]
fn a_chunk_too_short_for_its_own_header_is_short_rather_than_a_panic() {
    let mut reassembly = Reassembly::new();
    assert!(matches!(reassembly.push(&[0; 7]).unwrap_err(), Malformed::Short { .. }));
}
