//! The conference the connection is joining, and what the two sides tell each other.
//!
//! T.124 calls it a conference: the client asks to create one, the server answers, and
//! inside both messages is an opaque block of "user data" that the conference protocol
//! never looks at. RDP puts everything it needs to agree before a session exists into
//! that block: the desktop size, the colour depth, which security the negotiation
//! settled on, and the static virtual channels the client wants.
//!
//! So this module is two things at once: a thin T.124 envelope, PER-encoded (see
//! [`super::per`]), and the RDP blocks inside it, which are ordinary little-endian RDP
//! structures. The envelope is nearly constant (the same bytes on every connection
//! ever made, bar two lengths) and the blocks are where the connection is actually
//! described.
//!
//! # What is asked for
//!
//! Three client blocks, which is the fewest a Windows host will accept: `CS_CORE`
//! describes the client, `CS_SECURITY` says the connection carries no RDP encryption
//! of its own (TLS is underneath it already) and `CS_NET` names the static virtual
//! channels. Nothing asks for a message channel, a multitransport tunnel or a monitor
//! layout, so the server has nothing to answer about them.

use vstd::prelude::*;
use vstd::utf8::encode_utf8;

use super::wire::{
    cursor, le16, le16_at, le32, le32_at, same, views, zeros, Cursor, Malformed, Reader, Step, Writer,
};
use super::{channel, per};
use crate::text::{utf16, utf16_char};

verus! {

/// Client data block types.
pub const CS_CORE: u16 = 0xC001;
pub const CS_SECURITY: u16 = 0xC002;
pub const CS_NET: u16 = 0xC003;

/// Server data block types. The ones this client does not ask for are still named,
/// because a server may send them anyway and the walk has to step over them.
pub const SC_CORE: u16 = 0x0C01;
pub const SC_SECURITY: u16 = 0x0C02;
pub const SC_NET: u16 = 0x0C03;

/// A user data block's own header: type and length, the length counting itself.
pub const BLOCK_HEADER: usize = 4;

/// The RDP version this client claims.
///
/// 5.0 and later, which is every server that has ever spoken TLS. Claiming a newer one
/// buys nothing: the later versions gate features this client does not use, and each
/// of them is a PDU the server would then be entitled to send.
pub const RDP_VERSION_5_PLUS: u32 = 0x0008_0004;

/// `highColorDepth`: 24 bits per pixel. 32 is asked for separately, by the pair of
/// flags below; the field itself has no value for it.
pub const HIGH_COLOR_24BPP: u16 = 0x0018;

/// `supportedColorDepths`: 32, 24, 16 and 15 bits per pixel.
pub const COLOR_DEPTHS: u16 = 0x000F;

/// `earlyCapabilityFlags`, and each one is a promise:
///
/// - `0x0001` this client understands the Set Error Info PDU, which is how a server
///   says *why* it is closing a connection instead of just closing it.
/// - `0x0002` it wants a 32-bit session.
/// - `0x0008` it accepts a server key longer than 512 bits.
/// - `0x0020` `connectionType` below is a real value rather than a zero.
///
/// Nothing else is claimed. Every other flag turns on a PDU the server may then send,
/// and a PDU this client does not handle is a connection that ends badly later rather
/// than a feature.
pub const EARLY_CAPABILITIES: u16 = 0x002B;

/// `RNS_UD_CS_SUPPORT_DYNVC_GFX_PROTOCOL`: this client takes the graphics pipeline
/// (MS-RDPEGFX), so the server may open the Graphics dynamic channel and draw the
/// desktop there instead of with bitmap updates. Claimed only when the session
/// asked for it: see [`ConferenceCreateRequest::graphics`].
pub const SUPPORT_DYNVC_GFX_PROTOCOL: u16 = 0x0100;

/// `connectionType`: LAN. It tunes nothing on the wire; it tells the server which
/// visual effects the user is likely to tolerate.
pub const CONNECTION_TYPE_LAN: u8 = 0x06;

/// `colorDepth` and `postBeta2ColorDepth`, both superseded by `highColorDepth` and
/// both still required to be a legal value: 8 bits per pixel.
pub const RNS_UD_COLOR_8BPP: u16 = 0xCA01;

/// `SASSequence`: Ctrl+Alt+Del, the only value the field has ever had.
pub const RNS_UD_SAS_DEL: u16 = 0xAA03;

/// `CHANNEL_OPTION_SHOW_PROTOCOL`, which every client sets on the clipboard and on
/// nothing else. The server is told here, and reminded on every chunk: see
/// [`Channel::chunk_flags`].
pub const SHOW_PROTOCOL: u32 = 0x0020_0000;

/// Initialized, and compressed and encrypted by the server at its discretion. The two
/// security bits are historical: under TLS the server ignores them.
pub const CHANNEL_OPTIONS: u32 = 0xC080_0000;

/// The same, and the one that is not decoration: without it, and the matching flag on
/// every chunk, a Windows host answers nothing at all on the channel.
pub const SHOWN_OPTIONS: u32 = 0xC0A0_0000;

/// The lower bound T.124 gives node identifiers.
pub const BASE_NODE: u16 = 1001;

/// The most channels whose names fit one request.
pub const MAX_CHANNELS: usize = 2708;

pub const CLIENT_NAME: usize = 32;

pub const RESPONSE: &'static str = "a GCC Conference Create Response";
pub const BLOCK: &'static str = "a GCC server data block";

/// `ConnectData` up to the connectPDU length, which never varies: a CHOICE selecting
/// the object-identifier form of the key, and the identifier itself, T.124 (02/98),
/// `{ itu-t recommendation t 124 version(0) 1 }`, PER-encoded as a length and six
/// tuple bytes, the first two packed into one.
pub open spec fn connect_data() -> Seq<u8> {
    seq![0x00u8, 0x05, 0x00, 0x14, 0x7C, 0x00, 0x01]
}

/// `ConferenceCreateRequest` from its CHOICE index to the end of the H.221 key: every
/// byte of it is the same on every RDP connection.
///
/// In order: the CHOICE selecting `conferenceCreateRequest`, the OPTIONAL bitmap
/// selecting `userData` alone, `conferenceName` as the numeric string "1" (PER packs
/// two digits to a byte, padding the second with zero, and the string's length is
/// omitted because its lower bound is its length), a byte of alignment padding, a SET
/// OF count of one, the CHOICE selecting `h221NonStandard` with its value present, and
/// the key.
pub open spec fn create_request() -> Seq<u8> {
    seq![0x00u8, 0x08, 0x00, 0x10, 0x00, 0x01, 0xC0, 0x00, 0x44, 0x75, 0x63, 0x61]
}

/// The H.221 key that marks a user data block as RDP's rather than some other T.124
/// application's. "Duca" goes out, inside [`create_request`]; "McDn" comes back.
pub open spec fn server_key() -> Seq<u8> {
    seq![0x4Du8, 0x63, 0x44, 0x6E]
}

/// A static virtual channel, asked for by name in `CS_NET` and given a number by the
/// server in `SC_NET`.
#[derive(Clone, Copy, Debug, PartialEq, Eq)]
pub struct Channel {
    /// Seven bytes at most, ASCII: the field is eight with a terminator.
    pub name: &'static str,
    pub options: u32,
}

/// A name padded to the eight bytes it occupies on the wire.
pub open spec fn wire_name_spec(name: Seq<u8>) -> Seq<u8> {
    name + zeros(8 - name.len())
}

impl Channel {
    /// The name leaves room for its terminator.
    pub open spec fn named(self) -> bool {
        encode_utf8(self.name@).len() < 8
    }

    pub open spec fn bytes(self) -> Seq<u8> {
        wire_name_spec(encode_utf8(self.name@)) + le32(self.options)
    }

    /// The dynamic virtual channel transport, which carries Display Control: how a
    /// client tells the server the window has been resized.
    pub fn dynamic() -> (c: Channel)
        ensures
            c == (Channel { name: "drdynvc", options: CHANNEL_OPTIONS }),
    {
        Channel { name: "drdynvc", options: CHANNEL_OPTIONS }
    }

    /// The clipboard, which is a static channel of its own rather than a dynamic one:
    /// MS-RDPECLIP predates that transport, and a server opens this channel because
    /// the client named it here.
    pub fn clipboard() -> (c: Channel)
        ensures
            c == (Channel { name: "cliprdr", options: SHOWN_OPTIONS }),
    {
        Channel { name: "cliprdr", options: SHOWN_OPTIONS }
    }

    /// The remote's sound.
    pub fn audio() -> (c: Channel)
        ensures
            c == (Channel { name: "rdpsnd", options: CHANNEL_OPTIONS }),
    {
        Channel { name: "rdpsnd", options: CHANNEL_OPTIONS }
    }

    /// Device redirection, which a Windows host wants named before it redirects sound.
    pub fn devices() -> (c: Channel)
        ensures
            c == (Channel { name: "rdpdr", options: CHANNEL_OPTIONS }),
    {
        Channel { name: "rdpdr", options: CHANNEL_OPTIONS }
    }

    /// What every chunk of this channel's own PDUs wears beyond the first and last
    /// markers: [`channel::SHOW_PROTOCOL`] for a channel whose options asked for it,
    /// and nothing for one that did not.
    ///
    /// Derived from the options rather than written twice, because the two must agree:
    /// a Windows host reads nothing off a chunk whose header disagrees with what the
    /// channel was opened as, in *either* direction of disagreement.
    pub fn chunk_flags(self) -> (flags: u32)
        ensures
            flags == self.spec_chunk_flags(),
    {
        if self.options & SHOW_PROTOCOL != 0 { channel::SHOW_PROTOCOL } else { 0 }
    }

    pub open spec fn spec_chunk_flags(self) -> u32 {
        if self.options & SHOW_PROTOCOL != 0 { channel::SHOW_PROTOCOL } else { 0 }
    }

    /// The eight bytes the name occupies on the wire.
    fn write(&self, w: &mut Writer)
        requires
            self.named(),
        ensures
            final(w)@ == old(w)@ + self.bytes(),
    {
        let name = self.name.as_bytes();
        w.bytes(name);
        w.zeros(8 - name.len());
        w.u32_le(self.options);
        assert(w@ =~= old(w)@ + self.bytes());
    }
}

/// Only a channel whose options ask for it wears the flag on its chunks.
pub proof fn only_the_clipboard_shows_its_protocol()
    ensures
        (Channel { name: "cliprdr", options: SHOWN_OPTIONS }).spec_chunk_flags() == channel::SHOW_PROTOCOL,
        (Channel { name: "drdynvc", options: CHANNEL_OPTIONS }).spec_chunk_flags() == 0,
{
    assert(0xC0A0_0000u32 & 0x0020_0000u32 != 0 && 0xC080_0000u32 & 0x0020_0000u32 == 0) by (bit_vector);
}

/// What the client asks for, and everything the server needs before a session exists.
pub struct ConferenceCreateRequest<'a> {
    pub width: u16,
    pub height: u16,
    /// The client's own host name, as the server will show it in session lists.
    pub client_name: &'a str,
    /// A Windows keyboard layout identifier: `0x0409` for US English.
    pub keyboard_layout: u32,
    /// What the X.224 negotiation settled on. The server compares it with what it
    /// answered, so a client cannot be talked down to a weaker protocol by a machine
    /// in the middle rewriting the negotiation.
    pub selected_protocol: u32,
    pub channels: &'a [Channel],
    /// Whether to offer the graphics pipeline. A server that is offered it opens the
    /// Graphics channel over [`Channel::dynamic`], which `channels` must then name.
    pub graphics: bool,
}

/// A data block: its type, its length with this header, and its contents.
pub open spec fn block_bytes(block: u16, contents: Seq<u8>) -> Seq<u8> {
    le16(block) + le16((contents.len() + BLOCK_HEADER) as u16) + contents
}

/// How many characters of `s`, of the first `k`, fit a field of `n` bytes with a
/// terminator.
pub open spec fn whole_chars(s: Seq<char>, k: nat, n: nat) -> nat
    decreases k,
{
    if k == 0 || utf16(s.take(k as int)).len() + 2 <= n { k } else { whole_chars(s, (k - 1) as nat, n) }
}

/// Text as a fixed-width, NUL-terminated UTF-16 field: as many whole characters as fit,
/// and zeros.
pub open spec fn fixed(s: Seq<char>, n: nat) -> Seq<u8> {
    let kept = utf16(s.take(whole_chars(s, s.len(), n) as int));
    kept + zeros(n - kept.len())
}

/// More characters are no shorter.
proof fn utf16_grows(s: Seq<char>, i: nat, j: nat)
    requires
        i <= j <= s.len(),
    ensures
        utf16(s.take(i as int)).len() <= utf16(s.take(j as int)).len(),
    decreases j - i,
{
    if i < j {
        utf16_grows(s, i, (j - 1) as nat);
        assert(s.take(j as int).drop_last() =~= s.take(j - 1));
    }
}

/// The first character that does not fit is where the text is cut.
proof fn cut_at(s: Seq<char>, i: nat, k: nat, n: nat)
    requires
        i < k <= s.len(),
        i == 0 || utf16(s.take(i as int)).len() + 2 <= n,
        utf16(s.take(i + 1int)).len() + 2 > n,
    ensures
        whole_chars(s, k, n) == i,
    decreases k,
{
    utf16_grows(s, i + 1, k);
    assert(whole_chars(s, i, n) == i);
    if k > i + 1 {
        cut_at(s, i, (k - 1) as nat, n);
    }
}

/// `text` as a fixed-width, NUL-terminated UTF-16 field of `n` bytes.
///
/// Truncated to fit, on a code unit that can stand alone: cutting a surrogate pair in
/// half would put a lone half on the wire, which is not text in any encoding.
pub fn utf16_fixed(text: &str, n: usize) -> (bytes: Vec<u8>)
    requires
        n <= 0xFFFF,
    ensures
        bytes@ == fixed(text@, n as nat),
        bytes@.len() == n,
{
    let mut w = Writer::with_capacity(n);
    let mut full = false;
    let ghost mut kept: nat = 0;
    // By character rather than by code unit, so a character that takes two units is
    // written whole or not at all. Two more bytes are always kept back for the
    // terminator.
    for c in it: text.chars()
        invariant
            n <= 0xFFFF,
            it.seq() == text@,
            0 <= kept <= it.index(),
            !full ==> kept == it.index(),
            full ==> kept == whole_chars(text@, text@.len(), n as nat),
            w@ == utf16(text@.take(kept as int)),
            kept == 0 || w@.len() + 2 <= n,
    {
        proof {
            vstd::utf8::char_is_scalar(c);
            let now = text@.take(it.index() + 1);
            assert(now.drop_last() =~= text@.take(it.index()));
            assert(now.last() == c);
        }
        if !full {
            let v: u32 = c as u32;
            let width: usize = if v < 0x1_0000 { 2 } else { 4 };
            assert(utf16_char(c).len() == width);
            if w.len() + width + 2 > n {
                full = true;
                proof { cut_at(text@, kept, text@.len(), n as nat); }
            } else {
                if v < 0x1_0000 {
                    w.u16_le(v as u16);
                } else {
                    w.u16_le((0xD800 + (v - 0x1_0000) / 0x400) as u16);
                    w.u16_le((0xDC00 + (v - 0x1_0000) % 0x400) as u16);
                }
                proof {
                    kept = kept + 1;
                    assert(w@ =~= utf16(text@.take(kept as int)));
                }
            }
        }
    }
    proof {
        if !full {
            assert(kept == whole_chars(text@, text@.len(), n as nat));
        }
        assert(text@.take(0) =~= seq![]);
    }
    let pad: usize = n - w.len();
    w.zeros(pad);
    assert(w@ =~= fixed(text@, n as nat));
    w.finish()
}

impl<'a> ConferenceCreateRequest<'a> {
    /// Who the client is.
    pub open spec fn identity(&self) -> Seq<u8> {
        le32(RDP_VERSION_5_PLUS) + le16(self.width) + le16(self.height) + le16(RNS_UD_COLOR_8BPP)
            + le16(RNS_UD_SAS_DEL) + le32(self.keyboard_layout) + le32(0) + fixed(self.client_name@, 32)
    }

    /// What the client types on: the type, the subtype and the function keys of the
    /// keyboard, and no input method.
    pub open spec fn keyboard(&self) -> Seq<u8> {
        le32(4) + le32(0) + le32(12) + zeros(64)
    }

    /// What the client can show, and what it claims early.
    pub open spec fn display(&self) -> Seq<u8> {
        le16(RNS_UD_COLOR_8BPP) + le16(1) + le32(0) + le16(HIGH_COLOR_24BPP) + le16(COLOR_DEPTHS) + le16(
            self.early_capabilities(),
        ) + zeros(64) + seq![CONNECTION_TYPE_LAN, 0u8] + le32(self.selected_protocol) + zeros(18)
    }

    pub open spec fn core_contents(&self) -> Seq<u8> {
        self.identity() + self.keyboard() + self.display()
    }

    pub open spec fn early_capabilities(&self) -> u16 {
        if self.graphics { EARLY_CAPABILITIES | SUPPORT_DYNVC_GFX_PROTOCOL } else { EARLY_CAPABILITIES | 0 }
    }

    /// `CS_NET`, which is left out where no channel is asked for.
    pub open spec fn network_bytes(&self) -> Seq<u8> {
        if self.channels@.len() == 0 {
            seq![]
        } else {
            block_bytes(
                CS_NET,
                le32(self.channels@.len() as u32) + channel_list(self.channels@, self.channels@.len()),
            )
        }
    }

    pub open spec fn blocks_bytes(&self) -> Seq<u8> {
        block_bytes(CS_CORE, self.core_contents()) + block_bytes(CS_SECURITY, zeros(8))
            + self.network_bytes()
    }

    pub open spec fn bytes(&self) -> Seq<u8> {
        let blocks = self.blocks_bytes();
        let inner = create_request() + per::length_bytes(blocks.len() as u16) + blocks;
        connect_data() + per::length_bytes(inner.len() as u16) + inner
    }

    /// The channels are few, and named.
    pub open spec fn wf(&self) -> bool {
        &&& self.channels@.len() <= MAX_CHANNELS
        &&& forall|i: int| 0 <= i < self.channels@.len() ==> (#[trigger] self.channels@[i]).named()
    }

    /// The whole `ConnectData`, ready to be the `userData` of an MCS Connect-Initial.
    #[verifier::rlimit(60)]
    pub fn encode(&self) -> (bytes: Vec<u8>)
        requires
            self.wf(),
        ensures
            bytes@ == self.bytes(),
    {
        let blocks = self.blocks();
        let blocks_length: u16 = blocks.len() as u16;
        // `connectPDU` measures everything after its own length: the constant prefix,
        // the length of the user data, and the user data.
        let connect_pdu: u16 = 12 + per::length_size(blocks_length) as u16 + blocks_length;
        let mut w = Writer::new();
        w.bytes(&[0x00u8, 0x05, 0x00, 0x14, 0x7C, 0x00, 0x01]);
        per::write_length(&mut w, connect_pdu);
        w.bytes(&[0x00u8, 0x08, 0x00, 0x10, 0x00, 0x01, 0xC0, 0x00, 0x44, 0x75, 0x63, 0x61]);
        per::write_octet_string(&mut w, blocks.as_slice(), 0);
        assert(w@ =~= self.bytes());
        w.finish()
    }

    /// The RDP blocks, which is what the server actually reads.
    pub fn blocks(&self) -> (blocks: Vec<u8>)
        requires
            self.wf(),
        ensures
            blocks@ == self.blocks_bytes(),
            blocks@.len() <= 0x7FF1,
    {
        let mut w = Writer::new();
        self.write_core(&mut w);
        security(&mut w);
        self.network(&mut w);
        assert(w@ =~= self.blocks_bytes());
        w.finish()
    }

    fn write_identity(&self, w: &mut Writer)
        ensures
            final(w)@ == old(w)@ + self.identity(),
            self.identity().len() == 52,
    {
        w.u32_le(RDP_VERSION_5_PLUS);
        w.u16_le(self.width);
        w.u16_le(self.height);
        w.u16_le(RNS_UD_COLOR_8BPP); // colorDepth, superseded by highColorDepth
        w.u16_le(RNS_UD_SAS_DEL);
        w.u32_le(self.keyboard_layout);
        w.u32_le(0); // clientBuild
        let name = utf16_fixed(self.client_name, CLIENT_NAME);
        w.bytes(name.as_slice());
        assert(w@ =~= old(w)@ + self.identity());
    }

    fn write_keyboard(&self, w: &mut Writer)
        ensures
            final(w)@ == old(w)@ + self.keyboard(),
            self.keyboard().len() == 76,
    {
        w.u32_le(4); // keyboardType: IBM enhanced, 101 or 102 keys
        w.u32_le(0); // keyboardSubType
        w.u32_le(12); // keyboardFunctionKey
        w.zeros(64); // imeFileName
        assert(w@ =~= old(w)@ + self.keyboard());
    }

    fn write_display(&self, w: &mut Writer)
        ensures
            final(w)@ == old(w)@ + self.display(),
            self.display().len() == 102,
    {
        w.u16_le(RNS_UD_COLOR_8BPP); // postBeta2ColorDepth, superseded as above
        w.u16_le(1); // clientProductId, which has only ever been 1
        w.u32_le(0); // serialNumber
        w.u16_le(HIGH_COLOR_24BPP);
        w.u16_le(COLOR_DEPTHS);
        let graphics: u16 = if self.graphics { SUPPORT_DYNVC_GFX_PROTOCOL } else { 0 };
        w.u16_le(EARLY_CAPABILITIES | graphics);
        w.zeros(64); // clientDigProductId: an installation identifier we do not have
        w.u8(CONNECTION_TYPE_LAN);
        w.u8(0); // pad1octet
        w.u32_le(self.selected_protocol);
        // The physical size and scale of the client's screen, which would let the
        // server pick a DPI. Zero means it has not been measured: the physical width and
        // height, the orientation, and the desktop and device scale factors.
        w.zeros(18);
        assert(w@ =~= old(w)@ + self.display());
    }

    fn write_core(&self, w: &mut Writer)
        ensures
            final(w)@ == old(w)@ + block_bytes(CS_CORE, self.core_contents()),
            self.core_contents().len() == 230,
    {
        block_header(w, CS_CORE, 230);
        self.write_identity(w);
        self.write_keyboard(w);
        self.write_display(w);
        assert(w@ =~= old(w)@ + block_bytes(CS_CORE, self.core_contents()));
    }

    fn network(&self, w: &mut Writer)
        requires
            self.wf(),
        ensures
            final(w)@ == old(w)@ + self.network_bytes(),
            self.network_bytes().len() <= 8 + 12 * MAX_CHANNELS,
    {
        let count: usize = self.channels.len();
        if count == 0 {
            assert(w@ =~= old(w)@ + self.network_bytes());
            return;
        }
        block_header(w, CS_NET, (4 + 12 * count) as u16);
        w.u32_le(count as u32);
        let ghost before = w@;
        assert(w@ =~= before + channel_list(self.channels@, 0));
        for i in 0..count
            invariant
                self.wf(),
                count == self.channels@.len(),
                w@ == before + channel_list(self.channels@, i as nat),
                channel_list(self.channels@, i as nat).len() == 12 * i,
        {
            assert(self.channels@[i as int].named());
            self.channels[i].write(w);
            assert(w@ =~= before + channel_list(self.channels@, (i + 1) as nat));
        }
        assert(w@ =~= old(w)@ + self.network_bytes());
    }
}

/// The first `n` channels: their names and options.
pub open spec fn channel_list(channels: Seq<Channel>, n: nat) -> Seq<u8>
    decreases n,
{
    if n == 0 { seq![] } else { channel_list(channels, (n - 1) as nat) + channels[n - 1].bytes() }
}

/// `CS_SECURITY`, which on this client says the same thing twice: no encryption.
///
/// The RDP security layer is what a connection uses when there is no TLS underneath
/// it. There always is one here, so both method fields are zero, and a server that
/// answered with a method anyway would be asking for an encryption this client does
/// not implement, which [`ConferenceCreateResponse::decode`] refuses.
fn security(w: &mut Writer)
    ensures
        final(w)@ == old(w)@ + block_bytes(CS_SECURITY, zeros(8)),
{
    block_header(w, CS_SECURITY, 8);
    w.u32_le(0); // encryptionMethods
    w.u32_le(0); // extEncryptionMethods
    assert(w@ =~= old(w)@ + block_bytes(CS_SECURITY, zeros(8)));
}

fn block_header(w: &mut Writer, block: u16, contents: u16)
    requires
        contents <= 0x7FFF,
    ensures
        final(w)@ == old(w)@ + le16(block) + le16((contents + BLOCK_HEADER) as u16),
{
    w.u16_le(block);
    w.u16_le(contents + BLOCK_HEADER as u16);
}

/// What the server answers: the numbers every later PDU is addressed with.
#[derive(Clone, Debug, PartialEq, Eq)]
pub struct ConferenceCreateResponse {
    /// The channel every PDU that is not for a virtual channel travels on: the
    /// desktop, the input, the licensing and the capability exchange. Conventionally
    /// 1003, but the server names it and this client uses what it names.
    pub io_channel: u16,
    /// The channels asked for in `CS_NET`, numbered by the server, in the order they
    /// were asked for.
    pub channels: Vec<u16>,
}

/// A [`ConferenceCreateResponse`] by its contents.
pub struct ResponseView {
    pub io_channel: u16,
    pub channels: Seq<u16>,
}

impl View for ConferenceCreateResponse {
    type V = ResponseView;

    open spec fn view(&self) -> ResponseView {
        ResponseView { io_channel: self.io_channel, channels: self.channels@ }
    }
}

/// `SC_SECURITY`, which must agree that there is no RDP encryption.
pub open spec fn security_spec(contents: Seq<u8>) -> Result<(), Malformed> {
    match cursor(BLOCK, contents).u32_le() {
        Step::Stop(e) => Err(e),
        Step::Got(method, c) => match c.u32_le() {
            Step::Stop(e) => Err(e),
            Step::Got(level, c) => if method != 0 {
                Err(c.refused("an RDP encryption method", method as u64))
            } else if level != 0 {
                Err(c.refused("an RDP encryption level", level as u64))
            } else {
                Ok(())
            },
        },
    }
}

/// `n` more channel numbers, after those already got.
pub open spec fn numbers_spec(c: Cursor, n: nat, got: Seq<u16>) -> Result<Seq<u16>, Malformed>
    decreases n,
{
    if n == 0 {
        Ok(got)
    } else {
        match c.u16_le() {
            Step::Stop(e) => Err(e),
            Step::Got(number, c) => numbers_spec(c, (n - 1) as nat, got.push(number)),
        }
    }
}

/// `SC_NET`: the I/O channel, and the others.
pub open spec fn network_spec(contents: Seq<u8>) -> Result<ResponseView, Malformed> {
    match cursor(BLOCK, contents).u16_le() {
        Step::Stop(e) => Err(e),
        Step::Got(io_channel, c) => match c.u16_le() {
            Step::Stop(e) => Err(e),
            Step::Got(count, c) => match numbers_spec(c, count as nat, seq![]) {
                Err(e) => Err(e),
                Ok(channels) => Ok(ResponseView { io_channel, channels }),
            },
        },
    }
}

/// The server's blocks from `c` on, with the channel numbers found so far. A block this
/// client did not ask for is stepped over.
pub open spec fn blocks_spec(c: Cursor, network: Option<ResponseView>) -> Result<ResponseView, Malformed>
    decreases c.left(),
{
    if c.left() == 0 {
        match network {
            Some(found) => Ok(found),
            None => Err(c.missing("the channel numbers of SC_NET")),
        }
    } else {
        match c.u16_le() {
            Step::Stop(e) => Err(e),
            Step::Got(block, c1) => match c1.u16_le() {
                Step::Stop(e) => Err(e),
                Step::Got(length, c2) => if length < BLOCK_HEADER {
                    Err(c2.refused("a block length of", length as u64))
                } else {
                    match c2.bytes(length - BLOCK_HEADER) {
                        Step::Stop(e) => Err(e),
                        Step::Got(contents, c3) => if block == SC_SECURITY {
                            match security_spec(contents) {
                                Err(e) => Err(e),
                                Ok(_) => blocks_spec(c3, network),
                            }
                        } else if block == SC_NET {
                            match network_spec(contents) {
                                Err(e) => Err(e),
                                Ok(found) => blocks_spec(c3, Some(found)),
                            }
                        } else {
                            blocks_spec(c3, network)
                        },
                    }
                },
            },
        }
    }
}

impl ConferenceCreateResponse {
    /// What comes before the blocks.
    pub open spec fn envelope_step(c: Cursor) -> Step<()> {
        match c.bytes(7) {
            Step::Stop(e) => Step::Stop(e),
            Step::Got(key, c) => if key != connect_data() {
                Step::Stop(c.refused("a T.124 object identifier starting", key[0] as u64))
            } else {
                match per::length_step(c) {
                    Step::Stop(e) => Step::Stop(e),
                    Step::Got(_, c) => match c.u8() {
                        Step::Stop(e) => Step::Stop(e),
                        Step::Got(_, c) => match per::integer16_step(c, BASE_NODE) {
                            Step::Stop(e) => Step::Stop(e),
                            Step::Got(_, c) => match per::integer_step(c) {
                                Step::Stop(e) => Step::Stop(e),
                                Step::Got(_, c) => Self::result_step(c),
                            },
                        },
                    },
                }
            },
        }
    }

    pub open spec fn result_step(c: Cursor) -> Step<()> {
        match c.u8() {
            Step::Stop(e) => Step::Stop(e),
            Step::Got(result, c) => if result != 0 {
                Step::Stop(c.refused("a refusal to create the conference", result as u64))
            } else {
                match c.u8() {
                    Step::Stop(e) => Step::Stop(e),
                    Step::Got(_, c) => match c.u8() {
                        Step::Stop(e) => Step::Stop(e),
                        Step::Got(_, c) => per::expected_step(c, "an H.221 key starting", server_key()),
                    },
                }
            },
        }
    }

    pub open spec fn decode_spec(bytes: Seq<u8>) -> Result<ResponseView, Malformed> {
        match Self::envelope_step(cursor(RESPONSE, bytes)) {
            Step::Stop(e) => Err(e),
            Step::Got(_, c) => match per::octet_string_step(c, 0) {
                Step::Stop(e) => Err(e),
                Step::Got(blocks, _) => blocks_spec(cursor(BLOCK, blocks), None),
            },
        }
    }

    /// Decode the `userData` of an MCS Connect-Response.
    pub fn decode(bytes: &[u8]) -> (res: Result<ConferenceCreateResponse, Malformed>)
        ensures
            views(res, Self::decode_spec(bytes@)),
    {
        let mut r = Reader::new(RESPONSE, bytes);
        // ConnectData, whose key must be T.124's, or these are somebody else's blocks.
        let key = r.bytes(7)?;
        let expected = [0x00u8, 0x05, 0x00, 0x14, 0x7C, 0x00, 0x01];
        assert(expected@ =~= connect_data());
        if !same(key, &expected) {
            return Err(r.refuse("a T.124 object identifier starting", key[0] as u64));
        }
        per::read_length(&mut r)?; // connectPDU, which the fields below re-measure
        r.u8()?; // CHOICE: conferenceCreateResponse
        per::read_integer16(&mut r, BASE_NODE)?; // nodeID, which nothing addresses
        per::read_integer(&mut r)?; // tag
        let result = r.u8()?; // ENUMERATED result
        if result != 0 {
            return Err(r.refuse("a refusal to create the conference", result as u64));
        }
        r.u8()?; // SET OF count, which RDP always makes one
        r.u8()?; // CHOICE: h221NonStandard, value present
        let server = [0x4Du8, 0x63, 0x44, 0x6E];
        assert(server@ =~= server_key());
        per::expect_octet_string(&mut r, "an H.221 key starting", &server)?;
        let blocks = per::read_octet_string(&mut r, 0)?;
        Self::blocks(blocks)
    }

    fn blocks(bytes: &[u8]) -> (res: Result<ConferenceCreateResponse, Malformed>)
        ensures
            views(res, blocks_spec(cursor(BLOCK, bytes@), None)),
    {
        let mut r = Reader::new(BLOCK, bytes);
        let ghost start = r@;
        let mut network: Option<ConferenceCreateResponse> = None;
        while !r.is_empty()
            invariant
                r@.within(),
                start == cursor(BLOCK, bytes@),
                blocks_spec(start, None) == blocks_spec(r@, network_view(network)),
            decreases r@.left(),
        {
            let block = r.u16_le()?;
            let length = r.u16_le()?;
            if (length as usize) < BLOCK_HEADER {
                return Err(r.refuse("a block length of", length as u64));
            }
            let contents = r.bytes(length as usize - BLOCK_HEADER)?;
            match block {
                SC_SECURITY => Self::security(contents)?,
                SC_NET => {
                    network = Some(Self::network(contents)?);
                },
                // The server's own version and capability flags, and blocks for
                // something this client did not ask for: a server sends them unprompted,
                // and the connection is no worse for stepping over one.
                _ => {},
            }
        }
        match network {
            Some(found) => Ok(found),
            None => Err(r.missing("the channel numbers of SC_NET")),
        }
    }

    /// A method or a level here means the server wants the RDP security layer, which
    /// this client does not implement and would not use under TLS if it did. Refusing
    /// is the honest answer: going on would send a logon PDU in the clear inside a
    /// session the server believes is encrypted.
    fn security(contents: &[u8]) -> (res: Result<(), Malformed>)
        ensures
            res == security_spec(contents@),
    {
        let mut r = Reader::new(BLOCK, contents);
        let method = r.u32_le()?;
        let level = r.u32_le()?;
        if method != 0 {
            return Err(r.refuse("an RDP encryption method", method as u64));
        }
        if level != 0 {
            return Err(r.refuse("an RDP encryption level", level as u64));
        }
        Ok(())
    }

    fn network(contents: &[u8]) -> (res: Result<ConferenceCreateResponse, Malformed>)
        ensures
            views(res, network_spec(contents@)),
    {
        let mut r = Reader::new(BLOCK, contents);
        let io_channel = r.u16_le()?;
        let count = r.u16_le()?;
        let ghost start = r@;
        let mut channels: Vec<u16> = Vec::new();
        assert(channels@ =~= seq![]);
        for i in 0..count
            invariant
                network_spec(contents@) == (match numbers_spec(start, count as nat, seq![]) {
                    Err(e) => Err(e),
                    Ok(channels) => Ok(ResponseView { io_channel, channels }),
                }),
                numbers_spec(start, count as nat, seq![]) == numbers_spec(
                    r@,
                    (count - i) as nat,
                    channels@,
                ),
        {
            channels.push(r.u16_le()?);
        }
        Ok(ConferenceCreateResponse { io_channel, channels })
    }
}

pub open spec fn network_view(network: Option<ConferenceCreateResponse>) -> Option<ResponseView> {
    match network {
        Some(n) => Some(n@),
        None => None,
    }
}

/// The envelope's two lengths say exactly how much follows each of them.
#[verifier::rlimit(60)]
pub proof fn the_envelope_announces_what_follows_it(request: &ConferenceCreateRequest<'_>)
    requires
        request.wf(),
        request.blocks_bytes().len() <= 0x7FF1,
    ensures
        ({
            let bytes = request.bytes();
            let c = cursor(RESPONSE, bytes).plus(7);
            &&& bytes.take(7) == connect_data()
            &&& match per::length_step(c) {
                Step::Stop(_) => false,
                Step::Got(length, after) => {
                    &&& length == after.left()
                    &&& after.faces(create_request())
                    &&& match per::octet_string_step(after.plus(12), 0) {
                        Step::Stop(_) => false,
                        Step::Got(blocks, end) => blocks == request.blocks_bytes() && end.left() == 0,
                    }
                },
            }
        }),
{
    let blocks = request.blocks_bytes();
    let inner_length = per::length_bytes(blocks.len() as u16);
    let inner = create_request() + inner_length + blocks;
    let outer_length = per::length_bytes(inner.len() as u16);
    let bytes = request.bytes();
    let c0 = cursor(RESPONSE, bytes);
    assert(bytes.subrange(0, bytes.len() as int) =~= bytes);
    super::wire::facing_both(c0, connect_data() + outer_length, inner);
    super::wire::facing_both(c0, connect_data(), outer_length);
    let c = c0.plus(7);
    per::a_length_reads_back(c, inner.len() as u16);
    let after = c.plus(outer_length.len() as int);
    assert(after == c0.plus((connect_data() + outer_length).len() as int));
    super::wire::facing_both(after, create_request() + inner_length, blocks);
    super::wire::facing_both(after, create_request(), inner_length);
    per::a_length_reads_back(after.plus(12), blocks.len() as u16);
    let at = after.plus(12).plus(inner_length.len() as int);
    assert(at == after.plus((create_request() + inner_length).len() as int));
    assert(bytes.take(7) =~= connect_data());
}

/// A block announces its own length, header and all: a reader that trusts it lands on the
/// next block.
pub proof fn a_block_announces_its_length(block: u16, contents: Seq<u8>, rest: Seq<u8>)
    requires
        contents.len() <= 0xFFFF - BLOCK_HEADER,
    ensures
        ({
            let bytes = block_bytes(block, contents) + rest;
            &&& super::wire::le16_at(bytes, 0) == block
            &&& super::wire::le16_at(bytes, 2) == contents.len() + BLOCK_HEADER
            &&& bytes.skip(super::wire::le16_at(bytes, 2) as int) == rest
        }),
{
    let bytes = block_bytes(block, contents) + rest;
    assert(block_bytes(block, contents).len() == contents.len() + BLOCK_HEADER);
    assert(bytes.skip(contents.len() as int + BLOCK_HEADER) =~= rest);
    assert(bytes[0] == block_bytes(block, contents)[0] && bytes[1] == block_bytes(block, contents)[1]);
    assert(bytes[2] == block_bytes(block, contents)[2] && bytes[3] == block_bytes(block, contents)[3]);
}

/// One of the server's blocks: its type and its contents.
pub struct Block {
    pub kind: u16,
    pub contents: Seq<u8>,
}

impl Block {
    /// Whether its length can be announced.
    pub open spec fn fits(self) -> bool {
        self.contents.len() <= 0xFFFF - BLOCK_HEADER
    }
}

pub open spec fn all_fit(blocks: Seq<Block>) -> bool {
    forall|i: int| 0 <= i < blocks.len() ==> (#[trigger] blocks[i]).fits()
}

/// Blocks one after another, each of the length it announces.
pub open spec fn laid_out(blocks: Seq<Block>) -> Seq<u8>
    decreases blocks.len(),
{
    if blocks.len() == 0 {
        seq![]
    } else {
        block_bytes(blocks[0].kind, blocks[0].contents) + laid_out(blocks.skip(1))
    }
}

/// What blocks come to, with the channel numbers found before them: the numbers of the last
/// `SC_NET` among them, unless one of them is refused.
pub open spec fn answer_of(blocks: Seq<Block>, network: Option<ResponseView>) -> Result<
    ResponseView,
    Malformed,
>
    decreases blocks.len(),
{
    if blocks.len() == 0 {
        match network {
            Some(found) => Ok(found),
            None => Err(Malformed::Missing { what: BLOCK, field: "the channel numbers of SC_NET" }),
        }
    } else if blocks[0].kind == SC_SECURITY {
        match security_spec(blocks[0].contents) {
            Err(e) => Err(e),
            Ok(_) => answer_of(blocks.skip(1), network),
        }
    } else if blocks[0].kind == SC_NET {
        match network_spec(blocks[0].contents) {
            Err(e) => Err(e),
            Ok(found) => answer_of(blocks.skip(1), Some(found)),
        }
    } else {
        answer_of(blocks.skip(1), network)
    }
}

/// Bytes are a well-formed answer's envelope around these blocks.
pub open spec fn carries(bytes: Seq<u8>, blocks: Seq<Block>) -> bool {
    match ConferenceCreateResponse::envelope_step(cursor(RESPONSE, bytes)) {
        Step::Stop(_) => false,
        Step::Got(_, c) => match per::octet_string_step(c, 0) {
            Step::Stop(_) => false,
            Step::Got(inside, _) => inside == laid_out(blocks),
        },
    }
}

proof fn blocks_are_read_in_turn(c: Cursor, blocks: Seq<Block>, network: Option<ResponseView>)
    requires
        all_fit(blocks),
        c.what == BLOCK,
        c.faces(laid_out(blocks)),
        c.left() == laid_out(blocks).len(),
    ensures
        blocks_spec(c, network) == answer_of(blocks, network),
    decreases blocks.len(),
{
    if blocks.len() > 0 {
        let (kind, contents) = (blocks[0].kind, blocks[0].contents);
        let rest = blocks.skip(1);
        let head = block_bytes(kind, contents);
        let length = (contents.len() + BLOCK_HEADER) as u16;
        assert(blocks[0].fits());
        super::wire::facing_both(c, head, laid_out(rest));
        super::wire::facing(c, head);
        assert(c.bytes[c.at + 0] == head[0] && head[0] == le16(kind)[0]);
        assert(c.bytes[c.at + 1] == head[1] && head[1] == le16(kind)[1]);
        assert(c.bytes[c.at + 2] == head[2] && head[2] == le16(length)[0]);
        assert(c.bytes[c.at + 3] == head[3] && head[3] == le16(length)[1]);
        assert(super::wire::le16_at(c.bytes, c.at) == kind);
        assert(super::wire::le16_at(c.bytes, c.at + 2) == length);
        let c2 = c.plus(2).plus(2);
        assert(c2.bytes.subrange(c2.at, c2.at + contents.len()) =~= contents) by {
            assert forall|i: int| 0 <= i < contents.len() implies c.bytes[c2.at + i] == contents[i] by {
                assert(head[4 + i] == contents[i]);
            }
        }
        let c3 = c2.plus(contents.len() as int);
        assert(c3 == c.plus(head.len() as int));
        assert forall|i: int| 0 <= i < rest.len() implies (#[trigger] rest[i]).fits() by {
            assert(rest[i] == blocks[i + 1]);
        }
        blocks_are_read_in_turn(c3, rest, network);
        match network_spec(contents) {
            Err(_) => {},
            Ok(found) => blocks_are_read_in_turn(c3, rest, Some(found)),
        }
    }
}

/// A well-formed answer is what its blocks say, one after another: with no `SC_NET` among
/// them it is a fault, and not an empty list.
pub proof fn an_answer_is_what_its_blocks_say(bytes: Seq<u8>, blocks: Seq<Block>)
    requires
        all_fit(blocks),
        carries(bytes, blocks),
    ensures
        ConferenceCreateResponse::decode_spec(bytes) == answer_of(blocks, None),
        (forall|i: int| 0 <= i < blocks.len() ==> (#[trigger] blocks[i]).kind != SC_NET)
            ==> answer_of(blocks, None) is Err,
{
    let inside = laid_out(blocks);
    assert(inside.subrange(0, inside.len() as int) =~= inside);
    blocks_are_read_in_turn(cursor(BLOCK, inside), blocks, None);
    if forall|i: int| 0 <= i < blocks.len() ==> (#[trigger] blocks[i]).kind != SC_NET {
        no_numbers_is_a_fault(blocks);
    }
}

proof fn no_numbers_is_a_fault(blocks: Seq<Block>)
    requires
        forall|i: int| 0 <= i < blocks.len() ==> (#[trigger] blocks[i]).kind != SC_NET,
    ensures
        answer_of(blocks, None) is Err,
    decreases blocks.len(),
{
    if blocks.len() > 0 {
        let rest = blocks.skip(1);
        assert forall|i: int| 0 <= i < rest.len() implies (#[trigger] rest[i]).kind != SC_NET by {
            assert(rest[i] == blocks[i + 1]);
        }
        assert(blocks[0].kind != SC_NET);
        no_numbers_is_a_fault(rest);
    }
}

proof fn stepped_over(before: Seq<Block>, block: Block, after: Seq<Block>, network: Option<ResponseView>)
    requires
        block.kind != SC_SECURITY,
        block.kind != SC_NET,
    ensures
        answer_of(before.push(block) + after, network) == answer_of(before + after, network),
    decreases before.len(),
{
    let (with, without) = (before.push(block) + after, before + after);
    if before.len() == 0 {
        assert(with.skip(1) =~= after);
        assert(without =~= after);
    } else {
        let rest = before.skip(1);
        assert(with.skip(1) =~= rest.push(block) + after);
        assert(without.skip(1) =~= rest + after);
        stepped_over(rest, block, after, network);
        match network_spec(before[0].contents) {
            Err(_) => {},
            Ok(found) => stepped_over(rest, block, after, Some(found)),
        }
    }
}

/// A block of a type that is not read, put anywhere among the others, leaves the answer as
/// it was.
pub proof fn an_unread_block_changes_nothing(
    with: Seq<u8>,
    without: Seq<u8>,
    before: Seq<Block>,
    block: Block,
    after: Seq<Block>,
)
    requires
        block.kind != SC_SECURITY,
        block.kind != SC_NET,
        block.fits(),
        all_fit(before),
        all_fit(after),
        carries(with, before.push(block) + after),
        carries(without, before + after),
    ensures
        ConferenceCreateResponse::decode_spec(with) == ConferenceCreateResponse::decode_spec(without),
{
    let all = before.push(block) + after;
    assert forall|i: int| 0 <= i < all.len() implies (#[trigger] all[i]).fits() by {
        if i < before.len() {
            assert(all[i] == before[i]);
        } else if i > before.len() {
            assert(all[i] == after[i - before.len() - 1]);
        }
    }
    let others = before + after;
    assert forall|i: int| 0 <= i < others.len() implies (#[trigger] others[i]).fits() by {
        if i < before.len() {
            assert(others[i] == before[i]);
        } else {
            assert(others[i] == after[i - before.len()]);
        }
    }
    an_answer_is_what_its_blocks_say(with, all);
    an_answer_is_what_its_blocks_say(without, others);
    stepped_over(before, block, after, None);
}

/// A block has nothing in it to refuse.
pub open spec fn is_accepted(block: Block) -> bool {
    &&& block.kind == SC_SECURITY ==> security_spec(block.contents) is Ok
    &&& block.kind == SC_NET ==> network_spec(block.contents) is Ok
}

/// The `k`th block is the last `SC_NET` of a list, and these are the numbers in it.
pub open spec fn names_last(blocks: Seq<Block>, k: int, found: ResponseView) -> bool {
    &&& 0 <= k < blocks.len()
    &&& blocks[k].kind == SC_NET
    &&& network_spec(blocks[k].contents) == Ok::<ResponseView, Malformed>(found)
    &&& forall|j: int| k < j < blocks.len() ==> (#[trigger] blocks[j]).kind != SC_NET
}

proof fn an_answer_was_named(blocks: Seq<Block>, network: Option<ResponseView>, found: ResponseView)
    requires
        answer_of(blocks, network) == Ok::<ResponseView, Malformed>(found),
    ensures
        (exists|k: int| names_last(blocks, k, found)) || (network == Some(found) && forall|j: int|
            0 <= j < blocks.len() ==> (#[trigger] blocks[j]).kind != SC_NET),
    decreases blocks.len(),
{
    if blocks.len() > 0 {
        let rest = blocks.skip(1);
        let next = if blocks[0].kind == SC_NET {
            Some(network_spec(blocks[0].contents)->Ok_0)
        } else {
            network
        };
        an_answer_was_named(rest, next, found);
        assert forall|j: int| 1 <= j < blocks.len() implies #[trigger] blocks[j] == rest[j - 1] by {}
        if exists|k: int| names_last(rest, k, found) {
            let k = choose|k: int| names_last(rest, k, found);
            assert(blocks[k + 1] == rest[k]);
            assert(names_last(blocks, k + 1, found));
        } else if blocks[0].kind == SC_NET {
            assert(names_last(blocks, 0, found));
        }
    }
}

proof fn the_first_fault_is_the_answers(blocks: Seq<Block>, network: Option<ResponseView>, k: int)
    requires
        0 <= k < blocks.len(),
        forall|j: int| 0 <= j < k ==> is_accepted(#[trigger] blocks[j]),
        blocks[k].kind == SC_SECURITY,
        security_spec(blocks[k].contents) is Err,
    ensures
        answer_of(blocks, network) == Err::<ResponseView, Malformed>(
            security_spec(blocks[k].contents)->Err_0,
        ),
    decreases blocks.len(),
{
    if k > 0 {
        let rest = blocks.skip(1);
        assert(is_accepted(blocks[0]));
        assert forall|j: int| 0 <= j < k - 1 implies is_accepted(#[trigger] rest[j]) by {
            assert(rest[j] == blocks[j + 1]);
        }
        assert(rest[k - 1] == blocks[k]);
        the_first_fault_is_the_answers(rest, network, k - 1);
        match network_spec(blocks[0].contents) {
            Err(_) => {},
            Ok(found) => the_first_fault_is_the_answers(rest, Some(found), k - 1),
        }
    }
}

proof fn numbers_that_are_not_there_are_missed(blocks: Seq<Block>)
    requires
        forall|j: int|
            0 <= j < blocks.len() ==> is_accepted(#[trigger] blocks[j]) && blocks[j].kind != SC_NET,
    ensures
        answer_of(blocks, None) matches Err(Malformed::Missing { .. }),
    decreases blocks.len(),
{
    if blocks.len() > 0 {
        let rest = blocks.skip(1);
        assert(is_accepted(blocks[0]) && blocks[0].kind != SC_NET);
        assert forall|j: int| 0 <= j < rest.len() implies is_accepted(#[trigger] rest[j]) && rest[j].kind
            != SC_NET by {
            assert(rest[j] == blocks[j + 1]);
        }
        numbers_that_are_not_there_are_missed(rest);
    }
}

/// A well-formed answer that is accepted carries an `SC_NET`, and is the numbers of the last
/// one. One that carries none, with nothing else wrong, is missing it. One whose
/// `SC_SECURITY` is refused, with nothing wrong before that, is refused for it.
pub proof fn an_answer_is_the_numbers_it_carries(bytes: Seq<u8>, blocks: Seq<Block>)
    requires
        all_fit(blocks),
        carries(bytes, blocks),
    ensures
        ConferenceCreateResponse::decode_spec(bytes) matches Ok(found) ==> exists|k: int| #[trigger]
            names_last(blocks, k, found),
        (forall|j: int|
            0 <= j < blocks.len() ==> is_accepted(#[trigger] blocks[j]) && blocks[j].kind != SC_NET)
            ==> ConferenceCreateResponse::decode_spec(bytes) matches Err(Malformed::Missing { .. }),
        forall|k: int|
            #![trigger blocks[k]]
            0 <= k < blocks.len() && blocks[k].kind == SC_SECURITY && security_spec(blocks[k].contents) is Err
                && (forall|j: int| 0 <= j < k ==> is_accepted(#[trigger] blocks[j]))
                ==> ConferenceCreateResponse::decode_spec(bytes) == Err::<ResponseView, Malformed>(
                security_spec(blocks[k].contents)->Err_0,
            ),
{
    an_answer_is_what_its_blocks_say(bytes, blocks);
    match answer_of(blocks, None) {
        Ok(found) => an_answer_was_named(blocks, None, found),
        Err(_) => {},
    }
    if forall|j: int|
        0 <= j < blocks.len() ==> is_accepted(#[trigger] blocks[j]) && blocks[j].kind != SC_NET {
        numbers_that_are_not_there_are_missed(blocks);
    }
    assert forall|k: int|
        #![trigger blocks[k]]
        0 <= k < blocks.len() && blocks[k].kind == SC_SECURITY && security_spec(blocks[k].contents) is Err
            && (forall|j: int| 0 <= j < k ==> is_accepted(#[trigger] blocks[j]))
            implies ConferenceCreateResponse::decode_spec(bytes) == Err::<ResponseView, Malformed>(
        security_spec(blocks[k].contents)->Err_0,
    ) by {
        the_first_fault_is_the_answers(blocks, None, k);
    }
}

/// Channel numbers one after another.
pub open spec fn number_bytes(channels: Seq<u16>) -> Seq<u8>
    decreases channels.len(),
{
    if channels.len() == 0 { seq![] } else { le16(channels[0]) + number_bytes(channels.skip(1)) }
}

proof fn numbers_read_back(c: Cursor, channels: Seq<u16>, got: Seq<u16>)
    requires
        c.faces(number_bytes(channels)),
    ensures
        numbers_spec(c, channels.len(), got) == Ok::<Seq<u16>, Malformed>(got + channels),
    decreases channels.len(),
{
    if channels.len() == 0 {
        assert(got + channels =~= got);
    } else {
        let (first, rest) = (channels[0], channels.skip(1));
        super::wire::facing_both(c, le16(first), number_bytes(rest));
        super::wire::facing(c, le16(first));
        assert(c.bytes[c.at + 0] == le16(first)[0] && c.bytes[c.at + 1] == le16(first)[1]);
        assert(super::wire::le16_at(c.bytes, c.at) == first);
        numbers_read_back(c.plus(2), rest, got.push(first));
        assert(got.push(first) + rest =~= got + channels);
    }
}

/// The numbers of an `SC_NET` are those that were written, in the order they were written
/// in, whatever comes after them.
pub proof fn channel_numbers_read_back(io_channel: u16, channels: Seq<u16>, padding: Seq<u8>)
    requires
        channels.len() <= 0xFFFF,
    ensures
        network_spec(le16(io_channel) + le16(channels.len() as u16) + (number_bytes(channels) + padding))
            == Ok::<ResponseView, Malformed>(ResponseView { io_channel, channels }),
{
    let n = channels.len() as u16;
    let rest = number_bytes(channels) + padding;
    let contents = le16(io_channel) + le16(n) + rest;
    let c = cursor(BLOCK, contents);
    super::wire::numbers_read_back(seq![], le16(n) + rest, io_channel, 0);
    super::wire::numbers_read_back(le16(io_channel), rest, n, 0);
    assert(seq![] + le16(io_channel) + (le16(n) + rest) =~= contents);
    assert(c.u16_le() == Step::Got(io_channel, c.plus(2)));
    assert(c.plus(2).u16_le() == Step::Got(n, c.plus(2).plus(2)));
    let d = c.plus(2).plus(2);
    assert(contents.subrange(4, 4int + number_bytes(channels).len()) =~= number_bytes(channels));
    assert(d.faces(number_bytes(channels)));
    numbers_read_back(d, channels, seq![]);
    assert(seq![] + channels =~= channels);
}

/// An `SC_SECURITY` is accepted just where its method and its level are both none, and
/// refused otherwise.
pub proof fn no_encryption_is_all_that_is_accepted(method: u32, level: u32, more: Seq<u8>)
    ensures
        match security_spec(le32(method) + le32(level) + more) {
            Ok(_) => method == 0 && level == 0,
            Err(e) => (method != 0 || level != 0) && e is Refused,
        },
{
    let contents = le32(method) + le32(level) + more;
    let c = cursor(BLOCK, contents);
    super::wire::numbers_read_back(seq![], le32(level) + more, 0, method);
    super::wire::numbers_read_back(le32(method), more, 0, level);
    assert(seq![] + le32(method) + (le32(level) + more) =~= contents);
    assert(c.u32_le() == Step::Got(method, c.plus(4)));
    assert(c.plus(4).u32_le() == Step::Got(level, c.plus(4).plus(4)));
}

/// A name in a field of its own is as much of it as fits in whole characters, in order and from
/// the front; it is all of it where that fits; and the field ends with zeros, at least one of
/// them.
pub proof fn a_name_fills_its_field(name: Seq<char>, n: nat)
    requires
        n >= 2,
        n % 2 == 0,
    ensures
        fixed(name, n).len() == n,
        fixed(name, n)[n - 1] == 0 && fixed(name, n)[n - 2] == 0,
        exists|k: int|
            #![trigger name.take(k)]
            0 <= k <= name.len() && ({
                let kept = utf16(name.take(k));
                &&& kept.len() + 2 <= n
                &&& fixed(name, n) == kept + zeros(n - kept.len())
                &&& k < name.len() ==> utf16(name.take(k + 1)).len() + 2 > n
            }),
{
    let k = whole_chars(name, name.len(), n);
    whole_chars_fit(name, name.len(), n);
    let kept = utf16(name.take(k as int));
    assert(0 <= k <= name.len());
}

proof fn whole_chars_fit(s: Seq<char>, k: nat, n: nat)
    requires
        k <= s.len(),
        n >= 2,
        k == s.len() || utf16(s.take(k + 1int)).len() + 2 > n,
    ensures
        ({
            let i = whole_chars(s, k, n);
            &&& i <= k
            &&& utf16(s.take(i as int)).len() + 2 <= n
            &&& i < s.len() ==> utf16(s.take(i + 1int)).len() + 2 > n
        }),
    decreases k,
{
    if k == 0 {
        assert(s.take(0) =~= seq![]);
    } else if utf16(s.take(k as int)).len() + 2 > n {
        whole_chars_fit(s, (k - 1) as nat, n);
    }
}

/// What this client says of itself is where a host reads it: the desktop it would have, its
/// keyboard, its name, whether it takes the graphics pipeline, and the security that was chosen.
pub proof fn a_client_says_what_it_is(request: &ConferenceCreateRequest<'_>)
    ensures
        ({
            let core = request.core_contents();
            &&& core.len() == 230
            &&& le16_at(core, 4) == request.width && le16_at(core, 6) == request.height
            &&& le32_at(core, 12) == request.keyboard_layout
            &&& core.subrange(20, 52) == fixed(request.client_name@, 32)
            &&& le32_at(core, 208) == request.selected_protocol
            &&& (le16_at(core, 140) as int / 256 % 2 == 1) == request.graphics
        }),
{
    a_name_fills_its_field(request.client_name@, 32);
    let (id, keys, shown) = (request.identity(), request.keyboard(), request.display());
    let core = request.core_contents();
    let (w, h) = (le16(request.width), le16(request.height));
    assert(id.len() == 52 && keys.len() == 76 && shown.len() == 102);
    assert(forall|i: int| 0 <= i < 52 ==> #[trigger] core[i] == id[i]);
    assert(forall|i: int| 0 <= i < 102 ==> #[trigger] shown[i] == core[128 + i]);
    assert(id[4] == w[0] && id[5] == w[1] && id[6] == h[0] && id[7] == h[1]);
    assert(w[0] + 0x100 * w[1] == request.width && h[0] + 0x100 * h[1] == request.height);
    let k = le32(request.keyboard_layout);
    assert(id[12] == k[0] && id[13] == k[1] && id[14] == k[2] && id[15] == k[3]);
    assert(k[0] + 0x100 * k[1] + 0x1_0000 * k[2] + 0x100_0000 * k[3] == request.keyboard_layout);
    let name = fixed(request.client_name@, 32);
    assert(core.subrange(20, 52) =~= name) by {
        assert(forall|i: int| 0 <= i < 32 ==> #[trigger] name[i] == id[20 + i]);
    }
    let p = le32(request.selected_protocol);
    assert(shown[80] == p[0] && shown[81] == p[1] && shown[82] == p[2] && shown[83] == p[3]);
    assert(p[0] + 0x100 * p[1] + 0x1_0000 * p[2] + 0x100_0000 * p[3] == request.selected_protocol);
    let early = request.early_capabilities();
    let e = le16(early);
    assert(shown[12] == e[0] && shown[13] == e[1]);
    assert(e[0] + 0x100 * e[1] == early);
    let all = EARLY_CAPABILITIES;
    assert(((all | 0x0100u16) / 256) % 2 == 1 && (all / 256 % 2 == 0 ==> ((all | 0u16) / 256) % 2 == 0)) by (bit_vector);
}

/// The channels asked for are listed in order, twelve bytes each: a name, zeros up to eight bytes,
/// and what is wanted of the channel.
#[verifier::spinoff_prover]
#[verifier::rlimit(60)]
pub proof fn a_channel_is_listed_in_its_turn(channels: Seq<Channel>, n: nat, i: int)
    requires
        n <= channels.len(),
        0 <= i < n,
        forall|j: int| 0 <= j < channels.len() ==> (#[trigger] channels[j]).named(),
    ensures
        ({
            let all = channel_list(channels, n);
            let name = encode_utf8(channels[i].name@);
            &&& all.len() == 12 * n
            &&& all.subrange(12 * i, 12 * i + 8) == name + zeros(8 - name.len())
            &&& le32_at(all, 12 * i + 8) == channels[i].options
        }),
    decreases n,
{
    let last = channels[n - 1];
    assert(last.named());
    let before = channel_list(channels, (n - 1) as nat);
    let all = channel_list(channels, n);
    channels_are_twelve_bytes(channels, (n - 1) as nat);
    if i < n - 1 {
        a_channel_is_listed_in_its_turn(channels, (n - 1) as nat, i);
        assert(all.subrange(12 * i, 12 * i + 8) =~= before.subrange(12 * i, 12 * i + 8));
    } else {
        let name = encode_utf8(last.name@);
        let o = le32(last.options);
        assert(all.subrange(12 * i, 12 * i + 8) =~= name + zeros(8 - name.len()));
        assert(all[12 * i + 8] == o[0] && all[12 * i + 9] == o[1] && all[12 * i + 10] == o[2] && all[12 * i + 11] == o[3]);
        assert(o[0] + 0x100 * o[1] + 0x1_0000 * o[2] + 0x100_0000 * o[3] == last.options);
    }
}

proof fn channels_are_twelve_bytes(channels: Seq<Channel>, n: nat)
    requires
        n <= channels.len(),
        forall|j: int| 0 <= j < channels.len() ==> (#[trigger] channels[j]).named(),
    ensures
        channel_list(channels, n).len() == 12 * n,
    decreases n,
{
    if n > 0 {
        channels_are_twelve_bytes(channels, (n - 1) as nat);
        assert(channels[n - 1].named());
    }
}

} // verus!
