use rdp_client::proto::fastpath::{
    frame_length, is_output, updates, Fragment, Fragments, Piece, Update, BITMAP, COLOR_POINTER,
    COMPRESSION_USED, LONG_LENGTH, PACKET_COMPRESSED, POINTER_HIDDEN, POINTER_POSITION, SYNCHRONIZE,
};

/// Every update of a PDU that can be read.
fn all(frame: &[u8]) -> Vec<Piece<'_>> {
    let mut left = updates(frame).unwrap();
    let mut out = Vec::new();
    while let Some(piece) = left.next() {
        out.push(piece.unwrap());
    }
    out
}

/// A fast-path output PDU carrying each `(update header, body)` in order.
fn pdu(updates: &[(u8, &[u8])]) -> Vec<u8> {
    let mut body = Vec::new();
    for (header, data) in updates {
        body.push(*header);
        body.extend_from_slice(&u16::try_from(data.len()).unwrap().to_le_bytes());
        body.extend_from_slice(data);
    }
    wrap(&body)
}

/// A fast-path output PDU around updates that are already written out.
fn wrap(body: &[u8]) -> Vec<u8> {
    let mut frame = vec![0x00];
    let short = 2 + body.len();
    if short < 0x80 {
        frame.push(u8::try_from(short).unwrap());
    } else {
        let long = u16::try_from(short + 1).unwrap();
        frame.extend_from_slice(&(long | u16::from(LONG_LENGTH) << 8).to_be_bytes());
    }
    frame.extend_from_slice(body);
    frame
}

/// The two framings share the socket, and one byte tells them apart.
#[test]
fn a_tpkt_frame_is_not_mistaken_for_an_update() {
    assert!(is_output(0x00));
    assert!(!is_output(0x03), "a TPKT version byte");
}

#[test]
fn a_frame_announces_its_whole_length_including_its_own_header() {
    let frame = pdu(&[(BITMAP, &[0xAB; 8])]);
    assert_eq!(frame.len(), 2 + 3 + 8);
    assert_eq!(frame_length(&frame).unwrap(), Some(frame.len()));

    // Past 127 bytes the length takes a second byte, and the frame grows by it.
    let frame = pdu(&[(BITMAP, &[0xAB; 200])]);
    assert_eq!(frame.len(), 3 + 3 + 200);
    assert_eq!(frame_length(&frame).unwrap(), Some(frame.len()));
}

/// A caller reads what it is short of and asks again, rather than being told the
/// buffer ended — the buffer is meant to end, and the length says where.
#[test]
fn a_length_that_is_not_all_there_yet_is_not_an_error() {
    let frame = pdu(&[(BITMAP, &[0xAB; 200])]);
    assert_eq!(frame_length(&[]).unwrap(), None);
    assert_eq!(frame_length(&frame[..1]).unwrap(), None);
    assert_eq!(frame_length(&frame[..2]).unwrap(), None, "the long length needs a third byte");
    assert_eq!(frame_length(&frame[..3]).unwrap(), Some(frame.len()));
}

/// RDP's own encryption is refused in the negotiation, so a PDU that claims it is
/// a connection that is not what it was negotiated to be.
#[test]
fn an_encrypted_or_signed_pdu_is_refused_rather_than_read_past() {
    let mut frame = pdu(&[(BITMAP, &[0; 4])]);
    frame[0] = 0x80;
    assert_eq!(
        frame_length(&frame).unwrap_err().to_string(),
        "a fast-path output header carries its security flags 0x80, which this client does \
         not accept"
    );
}

#[test]
fn every_update_in_one_pdu_comes_out_in_order() {
    let frame = pdu(&[(BITMAP, &[0x01, 0x02]), (POINTER_POSITION, &[0x03, 0x04])]);
    let updates = all(&frame);
    assert_eq!(updates, vec![
        Piece { code: BITMAP, fragment: Fragment::Single, data: &[0x01, 0x02] },
        Piece { code: POINTER_POSITION, fragment: Fragment::Single, data: &[0x03, 0x04] },
    ]);
}

/// The declared length is what the PDU is. A caller that read past it — off a
/// stream, that is every caller — must not be handed the bytes after it.
#[test]
fn the_declared_length_bounds_the_updates_rather_than_the_buffer() {
    let mut frame = pdu(&[(BITMAP, &[0x01, 0x02])]);
    frame.extend_from_slice(&[SYNCHRONIZE, 0x00, 0x00]);
    assert_eq!(all(&frame).len(), 1);
}

#[test]
fn a_compressed_update_is_refused_and_an_uncompressed_one_wearing_the_flag_is_not() {
    // The flag says a byte of compression flags follows, and those flags say the
    // body was left alone after all.
    let frame = wrap(&[BITMAP | COMPRESSION_USED, 0x00, 0x02, 0x00, 0xAB, 0xCD]);
    let piece = updates(&frame).unwrap().next().unwrap().unwrap();
    assert_eq!(piece, Piece { code: BITMAP, fragment: Fragment::Single, data: &[0xAB, 0xCD] });

    // And when they say it really was compressed, it is refused: a server may
    // only compress what the Client Info PDU asked it to.
    let frame = wrap(&[BITMAP | COMPRESSION_USED, PACKET_COMPRESSED, 0x02, 0x00, 0xAB, 0xCD]);
    assert_eq!(
        updates(&frame).unwrap().next().unwrap().unwrap_err().to_string(),
        "a fast-path update carries its compression flags 0x20, which this client does not \
         accept"
    );
}

/// The pieces of one update, in the order a server sends them.
fn pieces<'a>(code: u8, parts: &[&'a [u8]]) -> Vec<Piece<'a>> {
    let last = parts.len() - 1;
    parts
        .iter()
        .enumerate()
        .map(|(at, data)| {
            let fragment = match at {
                0 => Fragment::First,
                at if at == last => Fragment::Last,
                _ => Fragment::Next,
            };
            Piece { code, fragment, data }
        })
        .collect()
}

#[test]
fn an_update_cut_into_pieces_comes_back_whole() {
    let mut fragments = Fragments::new(64);
    let parts: [&[u8]; 3] = [&[0x01, 0x02], &[0x03], &[0x04, 0x05]];
    let mut whole = Vec::new();
    for piece in pieces(BITMAP, &parts) {
        if let Some(update) = fragments.push(piece).unwrap() {
            whole.push((update.code, update.data.to_vec()));
        }
    }
    assert_eq!(whole, vec![(BITMAP, vec![0x01, 0x02, 0x03, 0x04, 0x05])]);

    // And the buffer is the update's, not a running total: a second one that
    // follows carries only its own bytes.
    let parts: [&[u8]; 2] = [&[0x06], &[0x07]];
    let mut whole = Vec::new();
    for piece in pieces(BITMAP, &parts) {
        if let Some(update) = fragments.push(piece).unwrap() {
            whole.push(update.data.to_vec());
        }
    }
    assert_eq!(whole, vec![vec![0x06, 0x07]]);
}

#[test]
fn an_update_that_was_never_cut_up_is_handed_straight_back() {
    let mut fragments = Fragments::new(64);
    let piece = Piece { code: POINTER_HIDDEN, fragment: Fragment::Single, data: &[] };
    assert_eq!(fragments.push(piece).unwrap(), Some(Update { code: POINTER_HIDDEN, data: &[] }));
}

#[test]
fn a_fragment_that_continues_nothing_ends_the_connection() {
    let mut fragments = Fragments::new(64);
    let piece = Piece { code: BITMAP, fragment: Fragment::Last, data: &[0x01] };
    assert_eq!(
        fragments.push(piece).unwrap_err().to_string(),
        "a fast-path update carries a fragment that continues nothing 0x1, which this client \
         does not accept"
    );
}

/// Interleaving is not something [MS-RDPBCGR] allows, and allowing it here would
/// mean holding as many half-updates as a server cares to begin.
#[test]
fn an_update_beginning_inside_another_ends_the_connection() {
    let mut fragments = Fragments::new(64);
    fragments
        .push(Piece { code: BITMAP, fragment: Fragment::First, data: &[0x01] })
        .unwrap();
    let piece = Piece { code: COLOR_POINTER, fragment: Fragment::Single, data: &[0x02] };
    assert_eq!(
        fragments.push(piece).unwrap_err().to_string(),
        "a fast-path update carries a whole update inside an unfinished one 0x9, which this \
         client does not accept"
    );
}

/// The limit is the Multifragment Update capability, and the memory it bounds is
/// this end's.
#[test]
fn a_reassembled_update_larger_than_the_two_ends_agreed_is_refused() {
    let mut fragments = Fragments::new(4);
    fragments
        .push(Piece { code: BITMAP, fragment: Fragment::First, data: &[0x01, 0x02, 0x03] })
        .unwrap();
    let piece = Piece { code: BITMAP, fragment: Fragment::Next, data: &[0x04, 0x05] };
    assert_eq!(
        fragments.push(piece).unwrap_err().to_string(),
        "a reassembled fast-path update carries a total length 0x5, which this client does \
         not accept"
    );
}
