use rdp_client::proto::rdpeai::{
    chosen_of, Format, Output, Rdpeai, Turn, E_INVALIDARG, MSG_SNDIN_FORMATS, MSG_SNDIN_OPEN,
    MSG_SNDIN_OPEN_REPLY, MSG_SNDIN_VERSION,
};
use rdp_client::proto::wire::Writer;

const MONO_16K: Format = Format { channels: 1, sample_rate: 16_000 };

fn pcm_format(channels: u16, rate: u32) -> Vec<u8> {
    let mut w = Writer::new();
    Format { channels, sample_rate: rate }.write(&mut w);
    w.finish()
}

fn formats_from_host(formats: &[Vec<u8>]) -> Vec<u8> {
    let mut message = vec![MSG_SNDIN_FORMATS];
    message.extend_from_slice(&(formats.len() as u32).to_le_bytes());
    message.extend_from_slice(&0xDEAD_BEEF_u32.to_le_bytes()); // arbitrary from a host
    for format in formats {
        message.extend_from_slice(format);
    }
    message
}

fn open(frames: u32, initial: u32) -> Vec<u8> {
    let mut message = vec![MSG_SNDIN_OPEN];
    message.extend_from_slice(&frames.to_le_bytes());
    message.extend_from_slice(&initial.to_le_bytes());
    message.extend_from_slice(&pcm_format(2, 44_100));
    message
}

fn open_reply_pdu(result: u32) -> Vec<u8> {
    let mut w = Writer::with_capacity(5);
    w.u8(MSG_SNDIN_OPEN_REPLY);
    w.u32_le(result);
    w.finish()
}

/// A channel negotiated through to recording 16 kHz mono in packets of `frames`.
fn recording(frames: u32) -> Rdpeai {
    let mut mic = Rdpeai::new();
    mic.opened(7);
    mic.push(&[MSG_SNDIN_VERSION, 2, 0, 0, 0]);
    mic.push(&formats_from_host(&[pcm_format(1, 16_000)]));
    mic.push(&open(frames, 0));
    assert!(mic.recording());
    mic
}

/// The Version PDUs of 4.1.1 and 4.1.2: a version 1 host is answered with version 1,
/// byte for byte, and a later host with the highest this end speaks.
#[test]
fn the_version_is_answered_as_the_specification_shows() {
    let mut mic = Rdpeai::new();
    mic.opened(3);
    let turn = mic.push(&[0x01, 0x01, 0x00, 0x00, 0x00]);
    assert_eq!(turn.replies, vec![vec![0x01, 0x01, 0x00, 0x00, 0x00]]);
    assert_eq!(turn.outputs, vec![Output::Negotiated { version: 1 }]);
    assert_eq!(mic.push(&[0x01, 0x07, 0, 0, 0]).replies, vec![vec![0x01, 0x02, 0, 0, 0]]);
}

/// The host's list of 4.1.3, whose PCM entries are 44.1, 22.05 and 11.025 kHz: an
/// Incoming Data PDU (4.1.4) goes first, then one format, mono at 22.05 kHz — the
/// lowest rate above speech the host lists that this end can produce, since 11.025 kHz
/// is not a whole number of samples in 20 ms at 48 kHz.
#[test]
fn the_hosts_format_list_is_answered_with_one_format() {
    let host = formats_from_host(&[
        pcm_format(2, 44_100),
        pcm_format(1, 44_100),
        pcm_format(1, 22_050),
        pcm_format(1, 11_025),
        // ADPCM, with its extra bytes, stepped over.
        [&[0x02, 0x00, 0x01, 0x00, 0x44, 0xAC, 0, 0, 0x47, 0xAD, 0, 0, 0x00, 0x08, 0x04, 0x00, 0x02, 0x00][..], &[0xF4, 0x07]].concat(),
    ]);
    let mut mic = Rdpeai::new();
    mic.opened(3);
    let turn = mic.push(&host);
    let chosen = Format { channels: 1, sample_rate: 22_050 };
    assert_eq!(turn.outputs, vec![Output::Offered(chosen)]);
    assert_eq!(turn.replies[0], vec![0x05]);
    assert_eq!(
        turn.replies[1],
        vec![
            0x02, 0x01, 0x00, 0x00, 0x00, 0x1B, 0x00, 0x00, 0x00, // header, 1 format, 27 bytes
            0x01, 0x00, 0x01, 0x00, 0x22, 0x56, 0x00, 0x00, // PCM, mono, 22050
            0x44, 0xAC, 0x00, 0x00, 0x02, 0x00, 0x10, 0x00, 0x00, 0x00, // 44100 B/s, 2, 16, 0
        ]
    );
}

#[test]
fn speech_rates_mono_first() {
    let f = |channels, sample_rate| Format { channels, sample_rate };
    assert_eq!(chosen_of(&[f(1, 48_000), f(1, 16_000), f(1, 8_000)]), Some(f(1, 16_000)));
    assert_eq!(chosen_of(&[f(2, 16_000), f(1, 44_100)]), Some(f(1, 44_100)), "mono before a better rate");
    assert_eq!(chosen_of(&[f(1, 8_000), f(1, 12_000)]), Some(f(1, 12_000)), "the highest below");
    assert_eq!(chosen_of(&[f(2, 32_000)]), Some(f(2, 32_000)), "stereo when nothing is mono");
    assert_eq!(chosen_of(&[f(1, 11_025), f(3, 16_000), f(1, 96_000)]), None);
}

/// A host listing nothing this end produces is told so with an empty list, and never
/// opens.
#[test]
fn no_producible_format_is_an_empty_list() {
    let mut mic = Rdpeai::new();
    mic.opened(3);
    let turn = mic.push(&formats_from_host(&[pcm_format(1, 11_025)]));
    assert_eq!(turn.outputs, vec![Output::NoFormat { offered: 1 }]);
    assert_eq!(turn.replies[1], vec![0x02, 0, 0, 0, 0, 0x09, 0, 0, 0]);
    let turn = mic.push(&open(160, 0));
    assert_eq!(turn.replies, vec![open_reply_pdu(E_INVALIDARG)]);
    assert!(!mic.recording());
}

/// The Open of 4.1.6 is confirmed with a Format Change for its initial format (4.1.7)
/// and then an `S_OK` Open Reply (4.1.8), in that order.
#[test]
fn an_open_is_confirmed_then_answered() {
    let mut mic = Rdpeai::new();
    mic.opened(3);
    mic.push(&formats_from_host(&[pcm_format(1, 16_000)]));
    let turn = mic.push(&open(320, 0));
    assert_eq!(turn.replies, vec![vec![0x07, 0, 0, 0, 0], vec![0x04, 0x00, 0x00, 0x00, 0x00]]);
    assert_eq!(turn.outputs, vec![Output::Opened(MONO_16K)]);
}

/// An Open before any format list names nothing, and is refused.
#[test]
fn an_open_out_of_sequence_is_refused() {
    let mut mic = Rdpeai::new();
    mic.opened(3);
    let turn = mic.push(&open(320, 0));
    assert_eq!(turn.replies, vec![open_reply_pdu(E_INVALIDARG)]);
    assert!(turn.outputs.is_empty());
}

/// PCM is cut into packets of exactly FramesPerPacket frames, each an Incoming Data PDU
/// then a Data PDU (4.2.1, 4.2.2), with a remainder carried to the next buffer.
#[test]
fn pcm_goes_out_in_whole_packets() {
    let mut mic = recording(4);
    let turn = mic.sample(&[1, 2, 3, 4, 5, 6, 7, 8, 9, 10]);
    assert_eq!(turn.replies, vec![vec![0x05], vec![0x06, 1, 2, 3, 4, 5, 6, 7, 8]]);
    let turn = mic.sample(&[11, 12, 13, 14, 15, 16]);
    assert_eq!(turn.replies, vec![vec![0x05], vec![0x06, 9, 10, 11, 12, 13, 14, 15, 16]]);
    assert!(mic.sample(&[]).replies.is_empty());
}

#[test]
fn nothing_is_sent_before_the_host_records() {
    let mut mic = Rdpeai::new();
    mic.opened(3);
    mic.push(&formats_from_host(&[pcm_format(1, 16_000)]));
    assert!(mic.sample(&[0; 640]).replies.is_empty());
}

/// A Format Change from the host is confirmed with the same index (4.3), and a partial
/// packet in the old format goes with it.
#[test]
fn a_format_change_is_confirmed() {
    let mut mic = recording(4);
    mic.sample(&[1, 2]);
    let turn = mic.push(&[0x07, 0, 0, 0, 0]);
    assert_eq!(turn.replies, vec![vec![0x07, 0, 0, 0, 0]]);
    assert!(mic.sample(&[3, 4, 5, 6, 7, 8]).replies.is_empty(), "the old half-packet was dropped");
    assert!(mic.push(&[0x07, 1, 0, 0, 0]).replies.is_empty(), "an index never offered");
}

#[test]
fn closing_ends_the_recording() {
    let mut mic = recording(4);
    assert!(mic.owns(7));
    assert_eq!(mic.closed().outputs, vec![Output::Closed]);
    assert!(!mic.owns(7));
    assert!(mic.sample(&[0; 16]).replies.is_empty());
    assert!(mic.closed().outputs.is_empty());
}

#[test]
fn malformed_and_unknown_messages_are_ignored() {
    let mut mic = recording(4);
    assert_eq!(mic.push(&[]), Turn::default());
    assert_eq!(mic.push(&[0x03, 1, 0]), Turn::default());
    assert_eq!(mic.push(&[0x42]), Turn::default());
    assert_eq!(mic.push(&[0x01, 0, 0, 0, 0]), Turn::default(), "version zero");
    assert!(mic.recording());
}
