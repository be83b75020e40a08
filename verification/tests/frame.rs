use rdp_client::proto::frame::Frames;

/// A TPKT frame of `length` bytes, and a fast-path one.
fn tpkt(length: u16) -> Vec<u8> {
    let mut frame = vec![0x03, 0x00];
    frame.extend_from_slice(&length.to_be_bytes());
    frame.resize(usize::from(length), 0xAA);
    frame
}

fn fast(length: u8) -> Vec<u8> {
    let mut frame = vec![0x00, length];
    frame.resize(usize::from(length), 0xBB);
    frame
}

fn collect(bytes: &[u8], frames: usize) -> Vec<Vec<u8>> {
    let mut reader = Frames::new();
    reader.fill(bytes);
    (0..frames).map(|_| reader.take().expect("a frame").expect("a whole frame")).collect()
}

#[test]
fn the_two_framings_share_a_socket_and_are_told_apart_by_their_first_byte() {
    let mut wire = Vec::new();
    wire.extend_from_slice(&tpkt(9));
    wire.extend_from_slice(&fast(7));
    wire.extend_from_slice(&tpkt(300));
    let frames = collect(&wire, 3);
    assert_eq!(frames[0], tpkt(9));
    assert_eq!(frames[1], fast(7));
    assert_eq!(frames[2], tpkt(300));
}

/// The point of the buffer: what the kernel hands over has nothing to do with
/// where frames end.
#[test]
fn a_frame_split_across_reads_arrives_whole() {
    let whole = tpkt(64);
    let (first, second) = whole.split_at(3);
    let mut reader = Frames::new();
    reader.fill(first);
    assert_eq!(reader.take().expect("nothing wrong yet"), None);
    reader.fill(second);
    assert_eq!(reader.take().expect("a frame"), Some(whole));
}

/// A frame whose end has not arrived is not handed out, so a connection that ends there
/// leaves nothing to take.
#[test]
fn a_frame_cut_short_is_not_handed_out() {
    let cut = tpkt(64);
    let mut reader = Frames::new();
    reader.fill(&cut[..10]);
    assert_eq!(reader.take().expect("a frame so far"), None);
}

/// A header this client cannot read is an error rather than a wait for bytes
/// that would make it make sense.
#[test]
fn a_frame_that_is_neither_framing_is_refused() {
    let mut reader = Frames::new();
    reader.fill(&[0x03, 0x00, 0x00, 0x01]);
    assert!(reader.take().is_err());
}
