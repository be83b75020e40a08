use rdp_client::proto::capabilities::{
    ConfirmActive, DemandActive, BITMAP, BITMAP_CACHE, BRUSH, COLOR_DEPTH, COUNT, DEFAULT_MULTIFRAGMENT,
    GENERAL, GLYPH_CACHE, INPUT, LARGE_POINTER, MULTIFRAGMENT, OFFSCREEN_CACHE, ORDER, POINTER,
    SERVER_CHANNEL, SOUND, VIRTUAL_CHANNEL,
};
use rdp_client::proto::channel;
use rdp_client::proto::wire::{Reader, Writer};

/// What this client calls itself in the PDU.
const SOURCE: &[u8] = b"remotex\0";

fn confirm() -> ConfirmActive {
    ConfirmActive {
        share_id: 0x0001_0021,
        width: 1920,
        height: 1080,
        keyboard_layout: 0x0409,
        multifragment: 0x0004_0000,
    }
}

/// Every set announces its own length, and a reader that trusts those lengths has
/// to land exactly on the end of the list.
#[test]
fn every_capability_set_announces_the_length_it_occupies() {
    let sets = confirm().sets();
    let mut r = Reader::new("the list", &sets);
    let mut seen = Vec::new();
    while !r.is_empty() {
        let kind = r.u16_le().unwrap();
        let length = r.u16_le().unwrap();
        r.skip(usize::from(length) - 4).unwrap();
        seen.push((kind, length));
    }
    assert_eq!(
        seen,
        vec![
            (GENERAL, 24),
            (BITMAP, 28),
            (ORDER, 88),
            (BITMAP_CACHE, 40),
            (POINTER, 10),
            (INPUT, 88),
            (BRUSH, 8),
            (GLYPH_CACHE, 52),
            (OFFSCREEN_CACHE, 12),
            (VIRTUAL_CHANNEL, 12),
            (SOUND, 8),
            (LARGE_POINTER, 6),
            (MULTIFRAGMENT, 8),
        ]
    );
    assert_eq!(seen.len(), usize::from(COUNT));
}

#[test]
fn the_pdu_announces_the_list_that_follows_it() {
    let bytes = confirm().encode();
    let mut r = Reader::new("the PDU", &bytes);
    assert_eq!(r.u32_le().unwrap(), 0x0001_0021);
    assert_eq!(r.u16_le().unwrap(), SERVER_CHANNEL);
    let descriptor = r.u16_le().unwrap();
    let combined = r.u16_le().unwrap();
    assert_eq!(usize::from(descriptor), SOURCE.len());
    r.skip(usize::from(descriptor)).unwrap();
    assert_eq!(r.u16_le().unwrap(), COUNT);
    r.skip(2).unwrap();
    // The combined length covers the count, the pad, and the sets themselves.
    assert_eq!(usize::from(combined), 4 + r.rest().len());
}

#[test]
fn nothing_that_would_bring_an_order_or_a_cache_is_claimed() {
    let sets = confirm().sets();
    let at = 24 + 28 + 4;
    // Every byte of the order support array is a refusal.
    assert!(sets[at + 32..at + 64].iter().all(|byte| *byte == 0));
    // And the bitmap cache that follows holds nothing.
    let cache = 24 + 28 + 88 + 4;
    assert!(sets[cache..cache + 36].iter().all(|byte| *byte == 0));
}

/// The server's own list, as a Windows host sends it: more sets than this client
/// reads, in an order it does not choose.
fn demand(sets: &[(u16, Vec<u8>)]) -> Vec<u8> {
    let mut w = Writer::new();
    w.u32_le(0x0001_0021);
    w.u16_le(4);
    w.u16_le(
        u16::try_from(4 + sets.iter().map(|(_, body)| body.len() + 4).sum::<usize>()).unwrap(),
    );
    w.bytes(b"RDP\0");
    w.u16_le(u16::try_from(sets.len()).unwrap());
    w.zeros(2);
    for (kind, body) in sets {
        w.u16_le(*kind);
        w.u16_le(u16::try_from(body.len() + 4).unwrap());
        w.bytes(body);
    }
    w.u32_le(0);
    w.finish()
}

/// A General capability set, whose last two bytes are the only thing read from
/// it: whether the server repaints on request, and how.
fn general(refresh_rect: bool, suppress_output: bool) -> (u16, Vec<u8>) {
    let mut w = Writer::new();
    w.zeros(18);
    w.u8(u8::from(refresh_rect));
    w.u8(u8::from(suppress_output));
    (GENERAL, w.finish())
}

fn bitmap(width: u16, height: u16) -> (u16, Vec<u8>) {
    let mut w = Writer::new();
    w.u16_le(COLOR_DEPTH);
    w.zeros(6);
    w.u16_le(width);
    w.u16_le(height);
    w.zeros(12);
    (BITMAP, w.finish())
}

/// An Input capability set with these `inputFlags`, the keyboard fields after them
/// zero.
fn input(flags: u16) -> (u16, Vec<u8>) {
    let mut w = Writer::new();
    w.u16_le(flags);
    w.zeros(82);
    (INPUT, w.finish())
}

/// The `inputFlags` a Windows host sends: scancodes, the extended mouse event,
/// Unicode, fast-path input, a horizontal wheel and QoE timestamps.
const WINDOWS_INPUT: u16 = 0x0001 | 0x0004 | 0x0010 | 0x0020 | 0x0100 | 0x0200;

#[test]
fn the_desktop_the_server_settled_on_is_the_one_that_comes_back() {
    // Asked for 1920x1080, given 1024x768, with sets either side that this client
    // has no use for and must still step over.
    let pdu = demand(&[
        general(true, true),
        bitmap(1024, 768),
        (ORDER, vec![0; 84]),
        input(WINDOWS_INPUT),
        (MULTIFRAGMENT, 0x0010_0000_u32.to_le_bytes().to_vec()),
        (VIRTUAL_CHANNEL, [0_u32.to_le_bytes(), 16_256_u32.to_le_bytes()].concat()),
        (0x1D, vec![0; 40]),
    ]);
    assert_eq!(
        DemandActive::decode(SERVER_CHANNEL, &pdu).unwrap(),
        DemandActive {
            share_id: 0x0001_0021,
            server_channel: SERVER_CHANNEL,
            width: 1024,
            height: 768,
            multifragment: 0x0010_0000,
            chunk: 16_256,
            refresh_rect: true,
            suppress_output: true,
            horizontal_wheel: true,
            extended_buttons: true,
        }
    );
}

/// Two fields a server may leave off the end, and what this client does without
/// them: ask for as much as it can take, and send as little as every server takes.
#[test]
fn a_server_that_names_neither_size_gets_one_asked_of_it_and_one_assumed() {
    let pdu = demand(&[
        bitmap(1920, 1080),
        input(WINDOWS_INPUT),
        (VIRTUAL_CHANNEL, 0_u32.to_le_bytes().to_vec()),
    ]);
    let demanded = DemandActive::decode(SERVER_CHANNEL, &pdu).unwrap();
    assert_eq!(demanded.multifragment, DEFAULT_MULTIFRAGMENT);
    assert_eq!(demanded.chunk, channel::MIN_CHUNK);
}

/// The two ways of asking for a repaint, which a host answers only where it said
/// it would — and a server that sends no General capability set at all has said
/// it would answer neither.
#[test]
fn the_ways_a_server_will_repaint_are_taken_from_what_it_said_and_nowhere_else() {
    for (refresh_rect, suppress_output) in [(false, false), (true, false), (false, true)] {
        let pdu = demand(&[
            general(refresh_rect, suppress_output),
            bitmap(1920, 1080),
            input(WINDOWS_INPUT),
        ]);
        let demanded = DemandActive::decode(SERVER_CHANNEL, &pdu).unwrap();
        let read = (demanded.refresh_rect, demanded.suppress_output);
        assert_eq!(read, (refresh_rect, suppress_output));
    }
    let silent = demand(&[bitmap(1920, 1080), input(WINDOWS_INPUT)]);
    let silent = DemandActive::decode(SERVER_CHANNEL, &silent).unwrap();
    assert!(!silent.refresh_rect && !silent.suppress_output);
}

/// A server maximum below what a 384x384 pointer needs is raised to it: this client
/// claims such pointers, and may not ask for less room than one takes.
#[test]
fn a_multifragment_size_too_small_for_the_largest_pointer_is_raised_to_it() {
    let small = (MULTIFRAGMENT, 0x0004_0000_u32.to_le_bytes().to_vec());
    let pdu = demand(&[bitmap(1920, 1080), input(WINDOWS_INPUT), small]);
    let demanded = DemandActive::decode(SERVER_CHANNEL, &pdu).unwrap();
    assert_eq!(demanded.multifragment, 608_299);
}

/// Every event this client sends is fast-path input, so a server that takes none is
/// refused where it says so; the two optional pointer events follow their own flags.
#[test]
fn what_input_a_server_takes_is_read_from_its_input_flags() {
    let plain = demand(&[bitmap(1920, 1080), input(0x0001 | 0x0008)]);
    let plain = DemandActive::decode(SERVER_CHANNEL, &plain).unwrap();
    assert!(!plain.horizontal_wheel && !plain.extended_buttons);

    for flags in [0x0001_u16, 0x0001 | 0x0004 | 0x0100] {
        let pdu = demand(&[bitmap(1920, 1080), input(flags)]);
        assert_eq!(
            DemandActive::decode(SERVER_CHANNEL, &pdu).unwrap_err().to_string(),
            format!(
                "an RDP Demand Active PDU carries input flags admitting no fast-path input, \
                 {flags:#x}, which this client does not accept"
            )
        );
    }
}

/// The Virtual Channel set carries `VCChunkSize`, so the value is one the field
/// allows.
#[test]
fn the_virtual_channel_set_names_a_chunk_size_the_field_allows() {
    let sets = confirm().sets();
    let at = 24 + 28 + 88 + 40 + 10 + 88 + 8 + 52 + 12;
    assert_eq!(&sets[at..at + 4], &[0x14, 0x00, 0x0C, 0x00]);
    let chunk = u32::from_le_bytes(sets[at + 8..at + 12].try_into().unwrap());
    assert_eq!(chunk, 1600);
}

/// A chunk outside the range a chunk may have is a server this client
/// cannot write to: too small and a PDU it sends is refused, too large and the
/// number is not one a server meant.
#[test]
fn a_chunk_size_no_server_should_name_is_refused_where_it_is_named() {
    for named in [1599_u32, 16_257] {
        let chunk = [0_u32.to_le_bytes(), named.to_le_bytes()].concat();
        let pdu = demand(&[bitmap(1920, 1080), (VIRTUAL_CHANNEL, chunk)]);
        assert_eq!(
            DemandActive::decode(SERVER_CHANNEL, &pdu).unwrap_err().to_string(),
            format!(
                "a server Virtual Channel capability set carries a channel chunk size \
                 {named:#x}, which this client does not accept"
            )
        );
    }
}

#[test]
fn a_share_with_no_desktop_in_it_is_an_error_rather_than_a_guess() {
    let pdu = demand(&[(GENERAL, vec![0; 20])]);
    assert_eq!(
        DemandActive::decode(SERVER_CHANNEL, &pdu).unwrap_err().to_string(),
        "an RDP Demand Active PDU does not carry a Bitmap capability set"
    );
}

/// The session's depth is the server's to decide, and a shallower one is a
/// decoder that cannot read a pixel — so it is refused here, where the server says
/// so, rather than later where a bitmap would.
#[test]
fn a_session_that_is_not_32_bit_is_refused_where_the_server_declares_it() {
    let mut pdu = demand(&[bitmap(1920, 1080)]);
    let at = 4 + 2 + 2 + 4 + 2 + 2 + 4;
    pdu[at..at + 2].copy_from_slice(&16_u16.to_le_bytes());
    assert_eq!(
        DemandActive::decode(SERVER_CHANNEL, &pdu).unwrap_err().to_string(),
        "a server Bitmap capability set carries a colour depth 0x10, which this client does \
         not accept"
    );
}

#[test]
fn capabilities_a_capability_set_shorter_than_its_own_header_is_refused() {
    let mut pdu = demand(&[bitmap(1920, 1080)]);
    // The length field of the one set, made too small to contain itself.
    let at = 4 + 2 + 2 + 4 + 2 + 2 + 2;
    pdu[at..at + 2].copy_from_slice(&2_u16.to_le_bytes());
    assert_eq!(
        DemandActive::decode(SERVER_CHANNEL, &pdu).unwrap_err().to_string(),
        "an RDP Demand Active PDU carries a capability set length 0x2, which this client does \
         not accept"
    );
}
