//! Audio input redirection (MS-RDPEAI): a microphone on this end, as a recording device on
//! the host.
//!
//! One dynamic channel carries it, [`CHANNEL_NAME`], and the host opens it and speaks
//! first at every step (3.1.5.1). It sends its **version**, and this end answers with its
//! own. It sends the **formats** it records in, and this end answers with the ones it will
//! produce, preceded, as 3.2.5.1.4 requires, by an Incoming Data PDU. When an application
//! over there starts recording the host sends **Open**, naming one of this end's formats
//! by index and how many frames each packet must hold; this end confirms the format with a
//! Format Change PDU and reports success with an Open Reply (3.2.5.1.7, 3.2.5.1.8). From
//! then on every packet of audio is an Incoming Data PDU and a Data PDU, back to back
//! (3.2.5.2). A later Format Change from the host is confirmed the same way. Nothing a
//! host sends out of sequence or malformed is answered, and nothing ends the session:
//! 3.1.5 has both ends ignore it.
//!
//! # One format
//!
//! The audio this end produces is whatever the microphone is decoded into, so any 16-bit
//! linear PCM will do, and exactly one is offered: the host's own choice of index can then
//! only mean it. Of the PCM formats the host lists, the one chosen is mono if any is,
//! at 16 kHz if the host has it, and otherwise at the lowest rate above 16 kHz or the
//! highest below: a microphone here is speech, so a rate past what speech needs is bytes
//! for nothing. Only rates that are a whole number of samples in 20 ms at 48 kHz are
//! candidates, because that is what lets the caller resample from 48 kHz in exact groups.
//!
//! # Packets
//!
//! A Data PDU holds exactly `FramesPerPacket` frames (2.2.2.3). The caller's PCM arrives
//! in whatever lengths it was decoded in, so it is gathered here and cut into packets of
//! that size; a remainder waits for the next buffer.

use vstd::prelude::*;
use vstd::slice::slice_subrange;

use super::wire::{
    byte_next, bytes_next, copy, cursor, front_faces, le16, le32, long_next, word_next, Cursor, Malformed, Reader,
    Step, Writer,
};

verus! {

pub const WHAT: &'static str = "an audio input PDU";

/// The dynamic channel the host opens for the microphone (2.1).
pub const CHANNEL_NAME: &'static str = "AUDIO_INPUT";

/// The highest version this end speaks: version 2, the one a current Windows host sends.
pub const VERSION: u32 = 2;

pub const MSG_SNDIN_VERSION: u8 = 0x01;
pub const MSG_SNDIN_FORMATS: u8 = 0x02;
pub const MSG_SNDIN_OPEN: u8 = 0x03;
pub const MSG_SNDIN_OPEN_REPLY: u8 = 0x04;
pub const MSG_SNDIN_DATA_INCOMING: u8 = 0x05;
pub const MSG_SNDIN_DATA: u8 = 0x06;
pub const MSG_SNDIN_FORMATCHANGE: u8 = 0x07;

pub const WAVE_FORMAT_PCM: u16 = 0x0001;
pub const BITS_PER_SAMPLE: u16 = 16;
/// An `AUDIO_FORMAT` with no trailing bytes, which PCM never has.
pub const FORMAT_BYTES: u32 = 18;

/// `S_OK`, and `E_INVALIDARG` for an Open naming a format this end never offered.
pub const S_OK: u32 = 0;
pub const E_INVALIDARG: u32 = 0x8007_0057;

/// The rate a microphone carrying speech is best sent at.
pub const SPEECH_RATE: u32 = 16_000;
/// The rates the caller can produce, which is every rate a 20 ms group at 48 kHz
/// resamples to exactly, within what a recording device is sensibly asked for.
pub const MIN_RATE: u32 = 8_000;
pub const MAX_RATE: u32 = 48_000;

/// The 16-bit linear PCM the host records in.
#[derive(Clone, Copy, Debug, PartialEq, Eq)]
pub struct Format {
    pub channels: u16,
    pub sample_rate: u32,
}

impl Format {
    /// Bytes in one frame across every channel.
    pub open spec fn frame_bytes(self) -> nat {
        2 * self.channels as nat
    }

    /// Bytes in one frame across every channel: `nBlockAlign`.
    pub fn block_align(self) -> (bytes: u16)
        requires
            self.channels <= 0x7FFF,
        ensures
            bytes == self.frame_bytes(),
    {
        self.channels * 2
    }

    /// Whether the caller can produce this: one or two channels, at a rate an exact 20 ms
    /// group at 48 kHz resamples to.
    pub open spec fn producible(self) -> bool {
        &&& self.channels == 1 || self.channels == 2
        &&& MIN_RATE <= self.sample_rate <= MAX_RATE
        &&& (960 * self.sample_rate) % 48_000 == 0
    }

    fn is_producible(self) -> (ok: bool)
        ensures
            ok == self.producible(),
    {
        (self.channels == 1 || self.channels == 2) && MIN_RATE <= self.sample_rate && self.sample_rate
            <= MAX_RATE && (960 * self.sample_rate as u64) % 48_000 == 0
    }

    pub open spec fn bytes(self) -> Seq<u8> {
        le16(WAVE_FORMAT_PCM) + le16(self.channels) + le32(self.sample_rate) + le32(
            (self.sample_rate * self.frame_bytes()) as u32,
        ) + le16(self.frame_bytes() as u16) + le16(BITS_PER_SAMPLE) + le16(0)
    }

    /// The format as an `AUDIO_FORMAT`, whose derived fields must fit theirs.
    pub fn write(self, w: &mut Writer)
        requires
            self.channels <= 0x7FFF,
            self.sample_rate * self.frame_bytes() <= u32::MAX,
        ensures
            final(w)@ == old(w)@ + self.bytes(),
    {
        w.u16_le(WAVE_FORMAT_PCM);
        w.u16_le(self.channels);
        w.u32_le(self.sample_rate);
        w.u32_le(self.sample_rate * self.block_align() as u32);
        w.u16_le(self.block_align());
        w.u16_le(BITS_PER_SAMPLE);
        w.u16_le(0); // cbSize
        assert(w@ =~= old(w)@ + self.bytes());
    }
}

/// The fields of an `AUDIO_FORMAT`.
pub struct Wave {
    pub tag: u16,
    pub channels: u16,
    pub sample_rate: u32,
    pub byte_rate: u32,
    pub block_align: u16,
    pub bits: u16,
}

impl Wave {
    /// The format, for 16-bit PCM whose derived fields agree with its stated ones.
    pub open spec fn pcm(self) -> Option<Format> {
        let f = Format { channels: self.channels, sample_rate: self.sample_rate };
        if self.tag == WAVE_FORMAT_PCM && self.bits == BITS_PER_SAMPLE && self.channels > 0
            && self.block_align == f.frame_bytes() && self.byte_rate == self.sample_rate * f.frame_bytes() {
            Some(f)
        } else {
            None
        }
    }
}

pub open spec fn wave_step(c: Cursor) -> Step<Wave> {
    match c.u16_le() {
        Step::Stop(e) => Step::Stop(e),
        Step::Got(tag, c) => match c.u16_le() {
            Step::Stop(e) => Step::Stop(e),
            Step::Got(channels, c) => match c.u32_le() {
                Step::Stop(e) => Step::Stop(e),
                Step::Got(sample_rate, c) => match c.u32_le() {
                    Step::Stop(e) => Step::Stop(e),
                    Step::Got(byte_rate, c) => match c.u16_le() {
                        Step::Stop(e) => Step::Stop(e),
                        Step::Got(block_align, c) => match c.u16_le() {
                            Step::Stop(e) => Step::Stop(e),
                            Step::Got(bits, c) => match c.u16_le() {
                                Step::Stop(e) => Step::Stop(e),
                                Step::Got(extra, c) => match c.skip(extra as int) {
                                    Step::Stop(e) => Step::Stop(e),
                                    Step::Got(_, c) => Step::Got(
                                        Wave {
                                            tag,
                                            channels,
                                            sample_rate,
                                            byte_rate,
                                            block_align,
                                            bits,
                                        },
                                        c,
                                    ),
                                },
                            },
                        },
                    },
                },
            },
        },
    }
}

impl Format {
    /// One `AUDIO_FORMAT`: `Some` for 16-bit PCM whose derived fields agree with its
    /// stated ones, `None` for anything else, which is stepped over whole.
    fn read(r: &mut Reader<'_>) -> (res: Result<Option<Format>, Malformed>)
        ensures
            match res {
                Ok(f) => match wave_step(old(r)@) {
                    Step::Got(wave, after) => f == wave.pcm() && after == final(r)@,
                    Step::Stop(_) => false,
                },
                Err(e) => wave_step(old(r)@) == Step::<Wave>::Stop(e),
            },
            final(r)@.within(),
    {
        let tag = r.u16_le()?;
        let channels = r.u16_le()?;
        let sample_rate = r.u32_le()?;
        let byte_rate = r.u32_le()?;
        let block_align = r.u16_le()?;
        let bits = r.u16_le()?;
        let extra = r.u16_le()?;
        r.skip(extra as usize)?;
        proof {
            assert(0 <= sample_rate * (2 * channels) <= 0xFFFF_FFFF * 0x1_FFFE) by (nonlinear_arith)
                requires
                    0 <= sample_rate <= 0xFFFF_FFFF,
                    0 <= channels <= 0xFFFF,
            ;
        }
        let align: u64 = 2 * channels as u64;
        let pcm = tag == WAVE_FORMAT_PCM && bits == BITS_PER_SAMPLE && channels > 0 && block_align as u64
            == align && byte_rate as u64 == sample_rate as u64 * align;
        Ok(if pcm { Some(Format { channels, sample_rate }) } else { None })
    }
}

/// The formats in the host's list, after those already got.
pub open spec fn formats_spec(c: Cursor, n: nat, got: Seq<Format>) -> Result<Seq<Format>, Malformed>
    decreases n,
{
    if n == 0 {
        Ok(got)
    } else {
        match wave_step(c) {
            Step::Stop(e) => Err(e),
            Step::Got(wave, c) => formats_spec(
                c,
                (n - 1) as nat,
                match wave.pcm() {
                    Some(f) => got.push(f),
                    None => got,
                },
            ),
        }
    }
}

/// Whether `f` is the better rate for speech than `than`.
pub open spec fn better(f: Format, than: Format) -> bool {
    if than.sample_rate >= SPEECH_RATE {
        f.sample_rate >= SPEECH_RATE && f.sample_rate < than.sample_rate
    } else {
        f.sample_rate >= SPEECH_RATE || f.sample_rate > than.sample_rate
    }
}

/// The best producible format of the first `n` with this many channels.
pub open spec fn best(offered: Seq<Format>, channels: u16, n: nat) -> Option<Format>
    decreases n,
{
    if n == 0 {
        None
    } else {
        let before = best(offered, channels, (n - 1) as nat);
        let f = offered[n - 1];
        if !f.producible() || f.channels != channels {
            before
        } else {
            match before {
                Some(b) => if better(f, b) { Some(f) } else { Some(b) },
                None => Some(f),
            }
        }
    }
}

/// The one format to offer out of the host's list, or `None` if the host lists nothing
/// this end produces.
pub open spec fn choose_spec(offered: Seq<Format>) -> Option<Format> {
    match best(offered, 1, offered.len()) {
        Some(f) => Some(f),
        None => best(offered, 2, offered.len()),
    }
}

/// The one format to offer out of the host's list.
pub fn chosen_of(offered: &[Format]) -> (res: Option<Format>)
    ensures
        res == choose_spec(offered@),
        res matches Some(f) ==> f.producible(),
{
    match pick(offered, 1) {
        Some(f) => Some(f),
        None => pick(offered, 2),
    }
}

fn pick(offered: &[Format], channels: u16) -> (res: Option<Format>)
    ensures
        res == best(offered@, channels, offered@.len()),
        res matches Some(f) ==> f.producible(),
{
    let mut found: Option<Format> = None;
    for n in 0..offered.len()
        invariant
            found == best(offered@, channels, n as nat),
            found matches Some(f) ==> f.producible(),
    {
        let f: Format = offered[n];
        if f.is_producible() && f.channels == channels {
            found = match found {
                None => Some(f),
                Some(b) => {
                    let is_better = if b.sample_rate >= SPEECH_RATE {
                        f.sample_rate >= SPEECH_RATE && f.sample_rate < b.sample_rate
                    } else {
                        f.sample_rate >= SPEECH_RATE || f.sample_rate > b.sample_rate
                    };
                    if is_better { Some(f) } else { Some(b) }
                },
            };
        }
    }
    found
}

/// What a turn amounted to, beyond the messages it put on the wire.
#[derive(Clone, Copy, Debug, PartialEq, Eq)]
pub enum Output {
    /// The host agreed a version: microphone redirection is on offer.
    Negotiated { version: u32 },
    /// The host listed its formats and this end offered `format` back.
    Offered(Format),
    /// The host listed `offered` formats and none of them is one this end produces, so it
    /// was offered nothing and will never open.
    NoFormat { offered: u32 },
    /// An application on the host started recording: PCM in `format` is wanted from now on.
    Opened(Format),
    /// The recording ended, with the channel.
    Closed,
}

/// One event acted on: whole messages for the channel, and what they meant.
#[derive(Debug, PartialEq, Eq)]
pub struct Turn {
    pub replies: Vec<Vec<u8>>,
    pub outputs: Vec<Output>,
}

/// A [`Turn`] by its contents.
#[verifier::ext_equal]
pub struct TurnView {
    pub replies: Seq<Seq<u8>>,
    pub outputs: Seq<Output>,
}

impl View for Turn {
    type V = TurnView;

    open spec fn view(&self) -> TurnView {
        TurnView {
            replies: Seq::new(self.replies@.len(), |i: int| self.replies@[i]@),
            outputs: self.outputs@,
        }
    }
}

impl TurnView {
    pub open spec fn empty() -> TurnView {
        TurnView { replies: seq![], outputs: seq![] }
    }

    pub open spec fn reply(self, message: Seq<u8>) -> TurnView {
        TurnView { replies: self.replies.push(message), ..self }
    }

    pub open spec fn tell(self, output: Output) -> TurnView {
        TurnView { outputs: self.outputs.push(output), ..self }
    }
}

impl Default for Turn {
    fn default() -> (t: Turn)
        ensures
            t@ == TurnView::empty(),
    {
        Turn::new()
    }
}

impl Turn {
    pub fn new() -> (t: Turn)
        ensures
            t@ == TurnView::empty(),
    {
        let t = Turn { replies: Vec::new(), outputs: Vec::new() };
        assert(t@ =~= TurnView::empty());
        t
    }

    fn reply(&mut self, message: Vec<u8>)
        ensures
            final(self)@ == old(self)@.reply(message@),
    {
        self.replies.push(message);
        assert(self@.replies =~= old(self)@.replies.push(message@));
    }

    fn tell(&mut self, output: Output)
        ensures
            final(self)@ == old(self)@.tell(output),
    {
        self.outputs.push(output);
        assert(self@.replies =~= old(self)@.replies);
    }
}

/// The client's side of audio input redirection, on its one channel.
#[derive(Debug)]
pub struct Rdpeai {
    /// The channel, while the host holds it open.
    channel: Option<u32>,
    /// The format offered, once the host has listed its own.
    format: Option<Format>,
    /// Frames each Data PDU holds, while the host is recording.
    frames_per_packet: Option<u32>,
    /// PCM gathered towards the next packet.
    pending: Vec<u8>,
}

/// A [`Rdpeai`] by its contents.
pub struct RdpeaiView {
    pub channel: Option<u32>,
    pub format: Option<Format>,
    pub frames_per_packet: Option<u32>,
    pub pending: Seq<u8>,
}

impl View for Rdpeai {
    type V = RdpeaiView;

    closed spec fn view(&self) -> RdpeaiView {
        RdpeaiView {
            channel: self.channel,
            format: self.format,
            frames_per_packet: self.frames_per_packet,
            pending: self.pending@,
        }
    }
}

impl RdpeaiView {
    /// A format that was offered can be produced, and a recording has one and packets of
    /// at least a frame.
    pub open spec fn wf(self) -> bool {
        &&& self.format matches Some(f) ==> f.producible()
        &&& self.frames_per_packet matches Some(n) ==> n > 0 && self.format is Some
    }

    pub open spec fn idle() -> RdpeaiView {
        RdpeaiView { channel: None, format: None, frames_per_packet: None, pending: seq![] }
    }

    /// What is said when a recording that was on is over.
    pub open spec fn ended(self) -> TurnView {
        if self.frames_per_packet is Some {
            TurnView::empty().tell(Output::Closed)
        } else {
            TurnView::empty()
        }
    }

    /// How many bytes a packet holds.
    pub open spec fn packet(self) -> nat {
        self.frames_per_packet->0 as nat * self.format->0.frame_bytes()
    }
}

pub open spec fn version_bytes(version: u32) -> Seq<u8> {
    seq![MSG_SNDIN_VERSION] + le32(version)
}

/// This end's Sound Formats PDU: the chosen format, or none. `cbSizeFormatsPacket` is the
/// whole PDU, since this end appends no extra data (2.2.2.2).
pub open spec fn formats_bytes(format: Option<Format>) -> Seq<u8> {
    match format {
        Some(f) => seq![MSG_SNDIN_FORMATS] + le32(1) + le32((9 + FORMAT_BYTES) as u32) + f.bytes(),
        None => seq![MSG_SNDIN_FORMATS] + le32(0) + le32(9),
    }
}

pub open spec fn format_change_bytes(index: u32) -> Seq<u8> {
    seq![MSG_SNDIN_FORMATCHANGE] + le32(index)
}

pub open spec fn open_reply_bytes(result: u32) -> Seq<u8> {
    seq![MSG_SNDIN_OPEN_REPLY] + le32(result)
}

/// What the host's list of formats leads to.
pub open spec fn listed(s: RdpeaiView, count: u32, offered: Seq<Format>) -> (RdpeaiView, TurnView) {
    let chosen = choose_spec(offered);
    (
        RdpeaiView { format: chosen, frames_per_packet: None, pending: seq![], ..s },
        TurnView::empty().reply(seq![MSG_SNDIN_DATA_INCOMING]).reply(formats_bytes(chosen)).tell(
            match chosen {
                Some(f) => Output::Offered(f),
                None => Output::NoFormat { offered: count },
            },
        ),
    )
}

/// What an Open leads to.
pub open spec fn open_spec(s: RdpeaiView, frames: u32, initial: u32) -> (
    RdpeaiView,
    TurnView,
    Result<(), Malformed>,
) {
    let refused = TurnView::empty().reply(open_reply_bytes(E_INVALIDARG));
    let c = Cursor { what: WHAT, bytes: seq![], at: 0 };
    match s.format {
        Some(format) => if initial != 0 {
            (s, refused, Err(c.refused("an initial format", initial as u64)))
        } else if frames == 0 {
            (s, refused, Err(c.refused("frames per packet", frames as u64)))
        } else {
            let confirmed = TurnView::empty().reply(format_change_bytes(initial)).reply(
                open_reply_bytes(S_OK),
            );
            (
                RdpeaiView { frames_per_packet: Some(frames), pending: seq![], ..s },
                if s.frames_per_packet is Some { confirmed } else { confirmed.tell(Output::Opened(format)) },
                Ok(()),
            )
        },
        None => (s, refused, Err(c.refused("an initial format", initial as u64))),
    }
}

/// What one message from the host does.
pub open spec fn message_spec(s: RdpeaiView, message: Seq<u8>) -> (
    RdpeaiView,
    TurnView,
    Result<(), Malformed>,
) {
    let nothing = TurnView::empty();
    match cursor(WHAT, message).u8() {
        Step::Stop(e) => (s, nothing, Err(e)),
        Step::Got(kind, c) => if kind == MSG_SNDIN_VERSION {
            match c.u32_le() {
                Step::Stop(e) => (s, nothing, Err(e)),
                Step::Got(version, c) => if version == 0 {
                    (s, nothing, Err(c.refused("a version", version as u64)))
                } else {
                    let agreed = if version < VERSION { version } else { VERSION };
                    (
                        s,
                        nothing.reply(version_bytes(agreed)).tell(
                            Output::Negotiated { version: agreed },
                        ),
                        Ok(()),
                    )
                },
            }
        } else if kind == MSG_SNDIN_FORMATS {
            match c.u32_le() {
                Step::Stop(e) => (s, nothing, Err(e)),
                Step::Got(count, c) => match c.skip(4) {
                    Step::Stop(e) => (s, nothing, Err(e)),
                    Step::Got(_, c) => match formats_spec(c, count as nat, seq![]) {
                        Err(e) => (s, nothing, Err(e)),
                        Ok(offered) => {
                            let (after, turn) = listed(s, count, offered);
                            (after, turn, Ok(()))
                        },
                    },
                },
            }
        } else if kind == MSG_SNDIN_OPEN {
            match c.u32_le() {
                Step::Stop(e) => (s, nothing, Err(e)),
                Step::Got(frames, c) => match c.u32_le() {
                    Step::Stop(e) => (s, nothing, Err(e)),
                    Step::Got(initial, c) => open_spec(s, frames, initial),
                },
            }
        } else if kind == MSG_SNDIN_FORMATCHANGE {
            match c.u32_le() {
                Step::Stop(e) => (s, nothing, Err(e)),
                Step::Got(index, c) => if s.format is None || index != 0 {
                    (s, nothing, Err(c.refused("a new format", index as u64)))
                } else {
                    (
                        RdpeaiView { pending: seq![], ..s },
                        nothing.reply(format_change_bytes(index)),
                        Ok(()),
                    )
                },
            }
        } else {
            (s, nothing, Err(c.refused("a message id", kind as u64)))
        },
    }
}

/// Gathered audio as whole packets: each an Incoming Data PDU and a Data PDU.
pub open spec fn packets(data: Seq<u8>, size: nat) -> Seq<Seq<u8>>
    decreases data.len(),
{
    if size == 0 || data.len() < size {
        seq![]
    } else {
        seq![seq![MSG_SNDIN_DATA_INCOMING], seq![MSG_SNDIN_DATA] + data.take(size as int)] + packets(
            data.skip(size as int),
            size,
        )
    }
}

fn read_formats(r: &mut Reader<'_>, count: u32) -> (res: Result<Vec<Format>, Malformed>)
    ensures
        match res {
            Ok(offered) => formats_spec(old(r)@, count as nat, seq![]) == Ok::<Seq<Format>, Malformed>(
                offered@,
            ),
            Err(e) => formats_spec(old(r)@, count as nat, seq![]) == Err::<Seq<Format>, Malformed>(e),
        },
{
    let mut offered: Vec<Format> = Vec::new();
    assert(offered@ =~= seq![]);
    for i in 0..count
        invariant
            formats_spec(old(r)@, count as nat, seq![]) == formats_spec(
                r@,
                (count - i) as nat,
                offered@,
            ),
    {
        if let Some(format) = Format::read(r)? {
            offered.push(format);
        }
    }
    Ok(offered)
}

/// A message of one number.
fn short_pdu(kind: u8, value: u32) -> (bytes: Vec<u8>)
    ensures
        bytes@ == seq![kind] + le32(value),
{
    let mut w = Writer::with_capacity(5);
    w.u8(kind);
    w.u32_le(value);
    assert(w@ =~= seq![kind] + le32(value));
    w.finish()
}

fn formats_pdu(format: Option<Format>) -> (bytes: Vec<u8>)
    requires
        format matches Some(f) ==> f.producible(),
    ensures
        bytes@ == formats_bytes(format),
{
    let mut w = Writer::new();
    w.u8(MSG_SNDIN_FORMATS);
    match format {
        Some(format) => {
            w.u32_le(1);
            w.u32_le(9 + FORMAT_BYTES);
            proof {
                assert(format.sample_rate * format.frame_bytes() <= 48_000 * 4) by (nonlinear_arith)
                    requires
                        0 <= format.sample_rate <= 48_000,
                        0 <= format.frame_bytes() <= 4,
                ;
            }
            format.write(&mut w);
        },
        None => {
            w.u32_le(0);
            w.u32_le(9);
        },
    }
    assert(w@ =~= formats_bytes(format));
    w.finish()
}

/// What is left of gathered audio once whole packets are cut off it.
pub open spec fn remainder(data: Seq<u8>, size: nat) -> Seq<u8>
    decreases data.len(),
{
    if size == 0 || data.len() < size { data } else { remainder(data.skip(size as int), size) }
}

impl Rdpeai {
    fn on_message(&mut self, message: &[u8], turn: &mut Turn) -> (res: Result<(), Malformed>)
        requires
            old(self)@.wf(),
            old(turn)@ == TurnView::empty(),
        ensures
            final(self)@.wf(),
            message_spec(old(self)@, message@) == (final(self)@, final(turn)@, res),
    {
        let mut r = Reader::new(WHAT, message);
        match r.u8()? {
            MSG_SNDIN_VERSION => {
                let version = r.u32_le()?;
                if version == 0 {
                    return Err(r.refuse("a version", version as u64));
                }
                let agreed: u32 = if version < VERSION { version } else { VERSION };
                turn.reply(short_pdu(MSG_SNDIN_VERSION, agreed));
                turn.tell(Output::Negotiated { version: agreed });
                Ok(())
            },
            MSG_SNDIN_FORMATS => {
                let count = r.u32_le()?;
                r.skip(4)?; // cbSizeFormatsPacket, which the client ignores
                let offered = read_formats(&mut r, count)?;
                self.list(count, &offered, turn);
                Ok(())
            },
            MSG_SNDIN_OPEN => {
                let frames = r.u32_le()?;
                let initial = r.u32_le()?;
                self.open(frames, initial, turn)
            },
            MSG_SNDIN_FORMATCHANGE => {
                let index = r.u32_le()?;
                if self.format.is_none() || index != 0 {
                    return Err(r.refuse("a new format", index as u64));
                }
                self.pending.clear();
                assert(self.pending@ =~= seq![]);
                turn.reply(short_pdu(MSG_SNDIN_FORMATCHANGE, index));
                Ok(())
            },
            kind => Err(r.refuse("a message id", kind as u64)),
        }
    }

    /// The host listed its formats.
    fn list(&mut self, count: u32, offered: &Vec<Format>, turn: &mut Turn)
        requires
            old(self)@.wf(),
            old(turn)@ == TurnView::empty(),
        ensures
            final(self)@.wf(),
            listed(old(self)@, count, offered@) == (final(self)@, final(turn)@),
    {
        let chosen = chosen_of(offered.as_slice());
        self.format = chosen;
        self.frames_per_packet = None;
        self.pending.clear();
        assert(self.pending@ =~= seq![]);
        let mut incoming: Vec<u8> = Vec::new();
        incoming.push(MSG_SNDIN_DATA_INCOMING);
        assert(incoming@ =~= seq![MSG_SNDIN_DATA_INCOMING]);
        turn.reply(incoming);
        turn.reply(formats_pdu(chosen));
        turn.tell(
            match chosen {
                Some(format) => Output::Offered(format),
                None => Output::NoFormat { offered: count },
            },
        );
    }

    /// An application over there starts recording. This end captures in the format it
    /// offered, which is what the data must be encoded in whatever the host adds.
    fn open(&mut self, frames: u32, initial: u32, turn: &mut Turn) -> (res: Result<(), Malformed>)
        requires
            old(self)@.wf(),
            old(turn)@ == TurnView::empty(),
        ensures
            final(self)@.wf(),
            open_spec(old(self)@, frames, initial) == (final(self)@, final(turn)@, res),
    {
        let offered: Option<Format> = if initial == 0 { self.format } else { None };
        let format: Format = match offered {
            Some(format) => format,
            None => {
                turn.reply(short_pdu(MSG_SNDIN_OPEN_REPLY, E_INVALIDARG));
                return Err(
                    Malformed::Refused { what: WHAT, field: "an initial format", value: initial as u64 },
                );
            },
        };
        if frames == 0 {
            turn.reply(short_pdu(MSG_SNDIN_OPEN_REPLY, E_INVALIDARG));
            return Err(
                Malformed::Refused { what: WHAT, field: "frames per packet", value: frames as u64 },
            );
        }
        let was_recording = self.recording();
        self.frames_per_packet = Some(frames);
        self.pending.clear();
        assert(self.pending@ =~= seq![]);
        turn.reply(short_pdu(MSG_SNDIN_FORMATCHANGE, initial));
        turn.reply(short_pdu(MSG_SNDIN_OPEN_REPLY, S_OK));
        if !was_recording {
            turn.tell(Output::Opened(format));
        }
        Ok(())
    }

    pub fn new() -> (r: Rdpeai)
        ensures
            r@ == RdpeaiView::idle(),
            r@.wf(),
    {
        let r = Rdpeai { channel: None, format: None, frames_per_packet: None, pending: Vec::new() };
        assert(r@.pending =~= seq![]);
        r
    }

    /// Whether dynamic channel `channel` is this end's.
    pub fn owns(&self, channel: u32) -> (owns: bool)
        ensures
            owns == (self@.channel == Some(channel)),
    {
        match self.channel {
            Some(own) => own == channel,
            None => false,
        }
    }

    /// The channel, while the host holds it open.
    pub fn channel(&self) -> (channel: Option<u32>)
        ensures
            channel == self@.channel,
    {
        self.channel
    }

    /// The host opened [`CHANNEL_NAME`] as `channel`. It speaks first, so nothing is sent;
    /// a second opening starts the conversation again.
    pub fn opened(&mut self, channel: u32) -> (turn: Turn)
        ensures
            turn@ == old(self)@.ended(),
            final(self)@ == (RdpeaiView { channel: Some(channel), ..RdpeaiView::idle() }),
            final(self)@.wf(),
    {
        let turn = self.closed();
        self.channel = Some(channel);
        turn
    }

    /// The host closed the channel, and the recording with it.
    pub fn closed(&mut self) -> (turn: Turn)
        ensures
            turn@ == old(self)@.ended(),
            final(self)@ == RdpeaiView::idle(),
            final(self)@.wf(),
    {
        let mut turn = Turn::new();
        if self.recording() {
            turn.tell(Output::Closed);
        }
        *self = Rdpeai::new();
        turn
    }

    /// Whether the host is recording, so PCM is wanted.
    pub fn recording(&self) -> (on: bool)
        ensures
            on == self@.frames_per_packet is Some,
    {
        self.frames_per_packet.is_some()
    }

    /// One whole message from the host. A malformed or out-of-sequence one is ignored
    /// (3.1.5).
    pub fn push(&mut self, message: &[u8]) -> (turn: Turn)
        requires
            old(self)@.wf(),
        ensures
            final(self)@.wf(),
            final(self)@ == message_spec(old(self)@, message@).0,
            turn@ == message_spec(old(self)@, message@).1,
    {
        let mut turn = Turn::new();
        let _ = self.on_message(message, &mut turn);
        turn
    }

    /// PCM in the opened format, cut into Data PDUs as whole packets gather. Nothing is
    /// taken while the host is not recording.
    pub fn sample(&mut self, pcm: &[u8]) -> (turn: Turn)
        requires
            old(self)@.wf(),
        ensures
            final(self)@.wf(),
            if old(self)@.frames_per_packet is Some {
                &&& final(self)@ == (RdpeaiView {
                    pending: remainder(old(self)@.pending + pcm@, old(self)@.packet()),
                    ..old(self)@
                })
                &&& turn@ == (TurnView {
                    replies: packets(old(self)@.pending + pcm@, old(self)@.packet()),
                    outputs: seq![],
                })
            } else {
                final(self)@ == old(self)@ && turn@ == TurnView::empty()
            },
    {
        let mut turn = Turn::new();
        let (frames, format): (u32, Format) = match (self.frames_per_packet, self.format) {
            (Some(frames), Some(format)) => (frames, format),
            _ => {
                return turn;
            },
        };
        proof {
            assert(0 < frames * format.frame_bytes() <= 0xFFFF_FFFF * 4) by (nonlinear_arith)
                requires
                    0 < frames <= 0xFFFF_FFFF,
                    2 <= format.frame_bytes() <= 4,
            ;
        }
        let packet: u64 = frames as u64 * format.block_align() as u64;
        self.pending.extend_from_slice(pcm);
        assert(self.pending@ =~= old(self)@.pending + pcm@);
        let ghost all = self.pending@;
        let mut taken: usize = 0;
        let len: usize = self.pending.len();
        assert(all.skip(0) =~= all);
        assert(turn@.replies + packets(all, packet as nat) =~= packets(all, packet as nat));
        while (len - taken) as u64 >= packet
            invariant
                taken <= len,
                len == all.len(),
                self.pending@ == all,
                packet > 0,
                turn@.outputs == Seq::<Output>::empty(),
                packets(all, packet as nat) == turn@.replies + packets(
                    all.skip(taken as int),
                    packet as nat,
                ),
                remainder(all, packet as nat) == remainder(all.skip(taken as int), packet as nat),
            decreases len - taken,
        {
            let size: usize = packet as usize;
            let mut incoming: Vec<u8> = Vec::new();
            incoming.push(MSG_SNDIN_DATA_INCOMING);
            let mut data: Vec<u8> = Vec::new();
            data.push(MSG_SNDIN_DATA);
            let piece = slice_subrange(self.pending.as_slice(), taken, taken + size);
            data.extend_from_slice(piece);
            proof {
                let rest = all.skip(taken as int);
                assert(piece@ =~= rest.take(size as int));
                assert(data@ =~= seq![MSG_SNDIN_DATA] + rest.take(size as int));
                assert(incoming@ =~= seq![MSG_SNDIN_DATA_INCOMING]);
                assert(rest.skip(size as int) =~= all.skip(taken + size));
            }
            let ghost before = turn@.replies;
            turn.reply(incoming);
            turn.reply(data);
            taken = taken + size;
            assert(turn@.replies + packets(all.skip(taken as int), packet as nat) =~= packets(all, packet as nat));
        }
        let rest = copy(slice_subrange(self.pending.as_slice(), taken, len));
        assert(rest@ =~= all.skip(taken as int));
        self.pending = rest;
        assert(turn@.replies + packets(all.skip(taken as int), packet as nat) =~= turn@.replies);
        turn
    }
}

/// The best of the first `n` is one of them, and none of them is better.
proof fn best_is_best(offered: Seq<Format>, channels: u16, n: nat)
    requires
        n <= offered.len(),
    ensures
        match best(offered, channels, n) {
            Some(f) => {
                &&& f.producible() && f.channels == channels
                &&& exists|i: int| 0 <= i < n && offered[i] == f
                &&& forall|i: int|
                    0 <= i < n && (#[trigger] offered[i]).producible() && offered[i].channels == channels
                        ==> !better(offered[i], f)
            },
            None => forall|i: int|
                0 <= i < n && (#[trigger] offered[i]).producible() ==> offered[i].channels != channels,
        },
    decreases n,
{
    if n > 0 {
        best_is_best(offered, channels, (n - 1) as nat);
        assert(offered[n - 1] == offered[n - 1]);
    }
}

/// The format offered is one of the host's that can be produced, mono if any of those is,
/// and no better rate is listed with as many channels; nothing is offered only where the
/// host lists nothing that can be produced.
pub proof fn the_offer_is_the_best_of_the_hosts(offered: Seq<Format>)
    ensures
        match choose_spec(offered) {
            Some(f) => {
                &&& f.producible()
                &&& offered.contains(f)
                &&& forall|g: Format|
                    #[trigger] offered.contains(g) && g.producible() ==> f.channels <= g.channels && (
                    g.channels == f.channels ==> !better(g, f))
            },
            None => forall|g: Format| #[trigger] offered.contains(g) ==> !g.producible(),
        },
{
    best_is_best(offered, 1, offered.len());
    best_is_best(offered, 2, offered.len());
}

/// The audio in the Data PDUs among these.
pub open spec fn audio(replies: Seq<Seq<u8>>) -> Seq<u8>
    decreases replies.len(),
{
    if replies.len() == 0 {
        seq![]
    } else {
        let last = replies.last();
        audio(replies.drop_last()) + if last.len() > 0 && last[0] == MSG_SNDIN_DATA {
            last.skip(1)
        } else {
            seq![]
        }
    }
}

proof fn audio_adds_up(a: Seq<Seq<u8>>, b: Seq<Seq<u8>>)
    ensures
        audio(a + b) == audio(a) + audio(b),
    decreases b.len(),
{
    if b.len() == 0 {
        assert(a + b =~= a);
        assert(audio(a) + audio(b) =~= audio(a));
    } else {
        assert((a + b).drop_last() =~= a + b.drop_last());
        audio_adds_up(a, b.drop_last());
        assert(audio(a + b) =~= audio(a) + audio(b));
    }
}

/// Cutting audio into packets loses none of it and adds none: what the packets hold and
/// what waits for the next buffer are, end to end, what was gathered. Every packet is an
/// Incoming Data PDU and then a Data PDU of exactly the agreed size, and what waits is less
/// than one packet.
pub proof fn no_audio_is_lost(data: Seq<u8>, size: nat)
    requires
        size > 0,
    ensures
        audio(packets(data, size)) + remainder(data, size) == data,
        remainder(data, size).len() < size,
        forall|i: int|
            0 <= i < packets(data, size).len() ==> if i % 2 == 0 {
                #[trigger] packets(data, size)[i] == seq![MSG_SNDIN_DATA_INCOMING]
            } else {
                packets(data, size)[i].len() == 1 + size && packets(data, size)[i][0] == MSG_SNDIN_DATA
            },
    decreases data.len(),
{
    if data.len() < size {
        assert(audio(packets(data, size)) + remainder(data, size) =~= data);
    } else {
        let rest = data.skip(size as int);
        let pair = seq![
            seq![MSG_SNDIN_DATA_INCOMING],
            seq![MSG_SNDIN_DATA] + data.take(size as int),
        ];
        no_audio_is_lost(rest, size);
        audio_adds_up(pair, packets(rest, size));
        assert(pair.drop_last() =~= seq![seq![MSG_SNDIN_DATA_INCOMING]]);
        assert(pair.drop_last().drop_last() =~= seq![]);
        assert(pair.last().skip(1) =~= data.take(size as int));
        reveal_with_fuel(audio, 3);
        assert(audio(pair.drop_last()) =~= seq![]);
        assert(audio(pair) =~= data.take(size as int));
        let later = audio(packets(rest, size));
        assert(packets(data, size) == pair + packets(rest, size));
        assert((data.take(size as int) + later) + remainder(rest, size) =~= data.take(size as int) + (
        later + remainder(rest, size)));
        assert(data.take(size as int) + rest =~= data);
        assert forall|i: int| 0 <= i < packets(data, size).len() implies if i % 2 == 0 {
            #[trigger] packets(data, size)[i] == seq![MSG_SNDIN_DATA_INCOMING]
        } else {
            packets(data, size)[i].len() == 1 + size && packets(data, size)[i][0] == MSG_SNDIN_DATA
        } by {
            if i >= 2 {
                assert(packets(data, size)[i] == packets(rest, size)[i - 2]);
                assert(i % 2 == (i - 2) % 2);
            }
        }
    }
}

/// The packets do not depend on the lengths the audio arrives in: two buffers are cut as
/// the one they make up would be.
pub proof fn buffers_are_cut_as_one(pending: Seq<u8>, first: Seq<u8>, second: Seq<u8>, size: nat)
    requires
        size > 0,
    ensures
        packets(pending + first, size) + packets(
            remainder(pending + first, size) + second,
            size,
        ) == packets(pending + (first + second), size),
        remainder(remainder(pending + first, size) + second, size) == remainder(
            pending + (first + second),
            size,
        ),
{
    assert(pending + first + second =~= pending + (first + second));
    cut_in_two(pending + first, second, size);
}

proof fn cut_in_two(first: Seq<u8>, second: Seq<u8>, size: nat)
    requires
        size > 0,
    ensures
        packets(first, size) + packets(remainder(first, size) + second, size) == packets(
            first + second,
            size,
        ),
        remainder(remainder(first, size) + second, size) == remainder(first + second, size),
    decreases first.len(),
{
    if first.len() < size {
        assert(packets(first, size) + packets(first + second, size) =~= packets(first + second, size));
    } else {
        let rest = first.skip(size as int);
        cut_in_two(rest, second, size);
        assert((first + second).skip(size as int) =~= rest + second);
        assert((first + second).take(size as int) =~= first.take(size as int));
        assert(packets(first, size) + packets(remainder(first, size) + second, size) =~= packets(
            first + second,
            size,
        ));
    }
}

/// What the host sends out of sequence or malformed changes nothing, and the one thing ever
/// said to it is that an Open named nothing this end offered.
pub proof fn what_is_refused_changes_nothing(s: RdpeaiView, message: Seq<u8>)
    requires
        message_spec(s, message).2 is Err,
    ensures
        message_spec(s, message).0 == s,
        message_spec(s, message).1 == TurnView::empty() || message_spec(s, message).1
            == TurnView::empty().reply(open_reply_bytes(E_INVALIDARG)),
{
}

/// A recording is only ever of a format that was offered, and nothing is sent before it.
pub proof fn a_recording_has_a_format(s: RdpeaiView, message: Seq<u8>)
    requires
        s.wf(),
        s.frames_per_packet is None,
        message_spec(s, message).0.frames_per_packet is Some,
    ensures
        s.format is Some,
        message_spec(s, message).1 == TurnView::empty().reply(format_change_bytes(0)).reply(
            open_reply_bytes(S_OK),
        ).tell(Output::Opened(s.format->0)),
{
}

/// A format as it is sent: 16-bit PCM, its channels, its rate, and how many bytes of it make a
/// second and a frame. What may follow is passed over.
pub open spec fn pcm_bytes(f: Format, extra: Seq<u8>) -> Seq<u8> {
    le16(1) + (le16(f.channels) + (le32(f.sample_rate) + (le32((f.sample_rate * (2 * f.channels)) as u32) + (le16(
        (2 * f.channels) as u16,
    ) + (le16(16) + (le16(extra.len() as u16) + extra))))))
}

/// A PCM format reads back as it was sent, and what follows it comes next.
pub proof fn a_format_reads_back(c: Cursor, f: Format, extra: Seq<u8>, rest: Seq<u8>)
    requires
        0 < f.channels <= 0x7FFF,
        f.sample_rate * (2 * f.channels) <= 0xFFFF_FFFF,
        extra.len() <= 0xFFFF,
        c.faces(pcm_bytes(f, extra) + rest),
    ensures
        match wave_step(c) {
            Step::Stop(_) => false,
            Step::Got(wave, next) => wave.pcm() == Some(f) && next.faces(rest),
        },
{
    let second = (f.sample_rate * (2 * f.channels)) as u32;
    assert(0 <= f.sample_rate * (2 * f.channels)) by (nonlinear_arith)
        requires
            0 <= f.sample_rate,
            0 <= f.channels,
    ;
    let frame = (2 * f.channels) as u16;
    let s7 = extra + rest;
    let s6 = le16(extra.len() as u16) + s7;
    let s5 = le16(16) + s6;
    let s4 = le16(frame) + s5;
    let s3 = le32(second) + s4;
    let s2 = le32(f.sample_rate) + s3;
    let s1 = le16(f.channels) + s2;
    assert(pcm_bytes(f, extra) + rest =~= le16(1) + s1);
    word_next(c, 1, s1);
    let c1 = c.plus(2);
    word_next(c1, f.channels, s2);
    let c2 = c1.plus(2);
    long_next(c2, f.sample_rate, s3);
    let c3 = c2.plus(4);
    long_next(c3, second, s4);
    let c4 = c3.plus(4);
    word_next(c4, frame, s5);
    let c5 = c4.plus(2);
    word_next(c5, 16, s6);
    let c6 = c5.plus(2);
    word_next(c6, extra.len() as u16, s7);
    let c7 = c6.plus(2);
    bytes_next(c7, extra, rest);
}

/// What is offered back is the format as a host would send it, with nothing behind it, under
/// a count of one and the length of the whole; and where there is none, a count of none.
pub proof fn an_offer_is_sent_as_a_host_would(f: Format)
    requires
        f.producible(),
    ensures
        formats_bytes(Some(f)) == seq![2u8] + (le32(1) + (le32(27) + pcm_bytes(f, seq![]))),
        formats_bytes(Some(f)).len() == 27,
        formats_bytes(None) == seq![2u8] + (le32(0) + le32(9)),
{
    assert(f.sample_rate * f.frame_bytes() == f.sample_rate * (2 * f.channels)) by (nonlinear_arith)
        requires
            f.frame_bytes() == 2 * f.channels,
    ;
    let none = Seq::<u8>::empty();
    assert(f.bytes() =~= pcm_bytes(f, none));
}

/// The rate offered is what speech is best sent at, of those the host lists with as many
/// channels: no rate of 16 kHz or more is nearer to it, and one below it is offered, the
/// highest, only where there is none of those. Only one or two channels are, at 8 to 48 kHz
/// and a whole number of samples in a fiftieth of a second.
pub proof fn the_rate_offered_suits_speech(offered: Seq<Format>, g: Format)
    requires
        offered.contains(g),
        g.channels == 1 || g.channels == 2,
        8000 <= g.sample_rate <= 48000,
        g.sample_rate as int % 50 == 0,
    ensures
        match choose_spec(offered) {
            None => false,
            Some(f) => {
                &&& offered.contains(f) && (f.channels == 1 || f.channels == 2)
                &&& 8000 <= f.sample_rate <= 48000 && f.sample_rate as int % 50 == 0
                &&& f.channels <= g.channels
                &&& f.channels == g.channels ==> {
                    &&& g.sample_rate >= 16000 ==> 16000 <= f.sample_rate <= g.sample_rate
                    &&& f.sample_rate < 16000 ==> g.sample_rate <= f.sample_rate
                }
            },
        },
{
    the_offer_is_the_best_of_the_hosts(offered);
    assert((960 * g.sample_rate) % 48_000 == 0);
    assert(g.producible());
}

/// A version is answered with the lower of the host's and 2.
pub proof fn a_version_is_answered(s: RdpeaiView, version: u32)
    requires
        version > 0,
    ensures
        ({
            let agreed = if version < 2 { version } else { 2 };
            let (after, turn, res) = message_spec(s, seq![1u8] + le32(version));
            &&& res is Ok && after == s
            &&& turn.replies == seq![seq![1u8] + le32(agreed)]
            &&& turn.outputs == seq![Output::Negotiated { version: agreed }]
        }),
{
    let one = seq![1u8] + le32(version);
    front_faces(WHAT, one);
    byte_next(cursor(WHAT, one), 1, le32(version));
    assert(le32(version) + seq![] =~= le32(version));
    long_next(cursor(WHAT, one).plus(1), version, seq![]);
}

/// An Open of the first format, for packets of at least a frame, is confirmed and then said to
/// have gone well; any other is answered with a failure.
pub proof fn an_open_is_answered(s: RdpeaiView, frames: u32, initial: u32)
    ensures
        ({
            let (after, turn, res) = message_spec(s, seq![3u8] + (le32(frames) + le32(initial)));
            if s.format is Some && initial == 0 && frames > 0 {
                &&& res is Ok && after.frames_per_packet == Some(frames) && after.pending.len() == 0
                &&& after.format == s.format && after.channel == s.channel
                &&& turn.replies == seq![seq![7u8] + le32(0), seq![4u8] + le32(0)]
                &&& turn.outputs == if s.frames_per_packet is Some {
                    seq![]
                } else {
                    seq![Output::Opened(s.format->0)]
                }
            } else {
                &&& res is Err && after == s
                &&& turn.replies == seq![seq![4u8] + le32(0x8007_0057)]
                &&& turn.outputs.len() == 0
            }
        }),
{
    let open = seq![3u8] + (le32(frames) + le32(initial));
    assert(message_spec(s, open) == open_spec(s, frames, initial)) by {
        an_open_is_read(s, frames, initial);
    }
}

proof fn an_open_is_read(s: RdpeaiView, frames: u32, initial: u32)
    ensures
        message_spec(s, seq![3u8] + (le32(frames) + le32(initial))) == open_spec(s, frames, initial),
{
    let open = seq![3u8] + (le32(frames) + le32(initial));
    let c = cursor(WHAT, open);
    front_faces(WHAT, open);
    byte_next(c, 3, le32(frames) + le32(initial));
    long_next(c.plus(1), frames, le32(initial));
    assert(le32(initial) + seq![] =~= le32(initial));
    long_next(c.plus(1).plus(4), initial, seq![]);
}

} // verus!
