//! The dynamic virtual channels, which all ride on one static one.
//!
//! A static virtual channel is asked for by name before the connection sequence
//! starts and numbered by the server; a dynamic one is opened while the session is
//! live, by the server, over the static channel named `drdynvc`. That indirection buys
//! a client one thing it wants (Display Control, the channel a desktop is resized over)
//! and a handful of PDUs to get there:
//!
//! 1. The server sends a **Capabilities Request** naming a version. The answer is the
//!    same version back: there is nothing to negotiate, only to agree to.
//! 2. The server sends a **Create Request** for each channel it wants open, by name.
//!    A client answers **Create Response** with a status: accepted, or [`NO_LISTENER`]
//!    for a channel it has no use for. Refusing is normal: a Windows host offers
//!    several, and this client takes one.
//! 3. **Data** travels in both directions, addressed by the number the Create Request
//!    gave the channel.
//! 4. **Close** ends a channel from either side.
//!
//! # Two fields whose width is in the header
//!
//! The first byte of every PDU packs the command into its top four bits and the width
//! of the two fields that may follow into the rest: a channel number is one, two or
//! four bytes depending on two bits, and a Data First's length the same. It is the only
//! place in RDP where a field's width is written rather than fixed, so it is read and
//! written here in one place, [`read_field`] and [`write_field`], rather than at each
//! call site.
//!
//! [MS-RDPEDYC] 2.2.

use vstd::prelude::*;
use vstd::slice::slice_subrange;
use vstd::utf8::{decode_utf8, encode_utf8, valid_utf8};

use super::wire::{
    byte_next, cursor, facing, facing_both, front_faces, le16, le32, long_next, steps, word_next, Cursor, Malformed, Reader, Step, Writer,
};
use crate::text;

verus! {

/// The most data one dynamic channel PDU may carry, so that it and its header fit
/// inside the smallest chunk a static channel can be given.
pub const MAX_DATA: usize = 1590;

/// `DYNVC_CREATE_RSP` accepted the channel.
pub const ACCEPTED: u32 = 0x0000_0000;
/// `DYNVC_CREATE_RSP` refused it: nothing above this module wanted that name.
pub const NO_LISTENER: u32 = 0xC000_0001;

/// Commands, in the top four bits of the first byte.
pub const CREATE: u8 = 0x01;
pub const DATA_FIRST: u8 = 0x02;
pub const DATA: u8 = 0x03;
pub const CLOSE: u8 = 0x04;
pub const CAPABILITIES: u8 = 0x05;

/// The field widths, in two bits each: one byte, two, or four.
pub const BYTE: u8 = 0x00;
pub const SHORT: u8 = 0x01;
pub const LONG: u8 = 0x02;

pub const WHAT: &'static str = "a dynamic virtual channel PDU";

/// What a server said on the dynamic channel.
#[derive(Clone, Copy, Debug, PartialEq, Eq)]
pub enum Message<'a> {
    /// The version to agree to, which [`capabilities_response`] hands straight back.
    Capabilities { version: u16 },
    /// A channel the server wants open, and the name it goes by.
    Create { channel: u32, name: &'a str },
    /// A channel the server has finished with.
    Close { channel: u32 },
    /// A whole PDU for one channel, with the pieces of a split one already joined.
    Data { channel: u32, data: &'a [u8] },
}

/// A [`Message`], its name and data by their contents.
pub enum MessageView {
    Capabilities { version: u16 },
    Create { channel: u32, name: Seq<char> },
    Close { channel: u32 },
    Data { channel: u32, data: Seq<u8> },
}

impl<'a> View for Message<'a> {
    type V = MessageView;

    open spec fn view(&self) -> MessageView {
        match *self {
            Message::Capabilities { version } => MessageView::Capabilities { version },
            Message::Create { channel, name } => MessageView::Create { channel, name: name@ },
            Message::Close { channel } => MessageView::Close { channel },
            Message::Data { channel, data } => MessageView::Data { channel, data: data@ },
        }
    }
}

/// A payload longer than one dynamic channel PDU.
#[derive(Clone, Copy, Debug, PartialEq, Eq)]
pub struct TooLong(pub usize);

impl TooLong {
    pub open spec fn text(self) -> Seq<char> {
        "a "@ + text::decimal(self.0 as nat) + "-byte dynamic channel payload does not fit one PDU"@
    }

    pub fn to_string(&self) -> (s: String)
        ensures
            s@ == self.text(),
    {
        let mut s = String::new();
        s.append("a ");
        text::push_decimal(&mut s, self.0 as u64);
        s.append("-byte dynamic channel payload does not fit one PDU");
        assert(s@ =~= self.text());
        s
    }
}

pub open spec fn field_step(c: Cursor, width: u8) -> Step<u32> {
    if width == BYTE {
        match c.u8() {
            Step::Stop(e) => Step::Stop(e),
            Step::Got(v, c) => Step::Got(v as u32, c),
        }
    } else if width == SHORT {
        match c.u16_le() {
            Step::Stop(e) => Step::Stop(e),
            Step::Got(v, c) => Step::Got(v as u32, c),
        }
    } else if width == LONG {
        c.u32_le()
    } else {
        Step::Stop(c.refused("a field width", width as u64))
    }
}

pub fn read_field(r: &mut Reader<'_>, width: u8) -> (res: Result<u32, Malformed>)
    ensures
        steps(res, final(r)@, field_step(old(r)@, width)),
        final(r)@.within(),
{
    match width {
        BYTE => Ok(r.u8()? as u32),
        SHORT => Ok(r.u16_le()? as u32),
        LONG => r.u32_le(),
        other => {
            let _ = r.at();
            Err(r.refuse("a field width", other as u64))
        },
    }
}

/// The narrowest of the three widths that holds a value.
pub open spec fn width_of(value: u32) -> u8 {
    if value <= 0xFF { BYTE } else if value <= 0xFFFF { SHORT } else { LONG }
}

/// A value in the narrowest width that holds it.
pub open spec fn field_bytes(value: u32) -> Seq<u8> {
    if value <= 0xFF {
        seq![value as u8]
    } else if value <= 0xFFFF {
        le16(value as u16)
    } else {
        le32(value)
    }
}

pub fn field_width(value: u32) -> (width: u8)
    ensures
        width == width_of(value),
{
    if value <= 0xFF { BYTE } else if value <= 0xFFFF { SHORT } else { LONG }
}

pub fn write_field(w: &mut Writer, value: u32)
    ensures
        final(w)@ == old(w)@ + field_bytes(value),
{
    if value <= 0xFF {
        w.u8(value as u8);
    } else if value <= 0xFFFF {
        w.u16_le(value as u16);
    } else {
        w.u32_le(value);
    }
}

/// The first byte: the command, and the width of the two fields that may follow it.
pub open spec fn header_byte(command: u8, sp: u8, cb_id: u8) -> u8 {
    (command * 16 + sp * 4 + cb_id) as u8
}

pub fn header(command: u8, sp: u8, cb_id: u8) -> (byte: u8)
    requires
        command < 16,
        sp < 4,
        cb_id < 4,
    ensures
        byte == header_byte(command, sp, cb_id),
{
    command * 16 + sp * 4 + cb_id
}

/// Bytes up to the first that is zero, or all of them.
pub open spec fn until_zero(s: Seq<u8>) -> Seq<u8>
    decreases s.len(),
{
    if s.len() == 0 || s[0] == 0 { seq![] } else { seq![s[0]] + until_zero(s.skip(1)) }
}

fn before_zero(bytes: &[u8]) -> (name: &[u8])
    ensures
        name@ == until_zero(bytes@),
{
    let mut n: usize = 0;
    proof {
        assert(bytes@.skip(0) =~= bytes@);
        assert(bytes@.take(0) + until_zero(bytes@) =~= until_zero(bytes@));
    }
    while n < bytes.len() && bytes[n] != 0
        invariant
            n <= bytes@.len(),
            until_zero(bytes@) == bytes@.take(n as int) + until_zero(bytes@.skip(n as int)),
        decreases bytes@.len() - n,
    {
        proof {
            let rest = bytes@.skip(n as int);
            assert(rest.skip(1) =~= bytes@.skip(n + 1));
            assert(bytes@.take(n + 1) =~= bytes@.take(n as int) + seq![rest[0]]);
            assert(until_zero(bytes@) =~= bytes@.take(n + 1) + until_zero(bytes@.skip(n + 1)));
        }
        n = n + 1;
    }
    proof {
        assert(bytes@.take(n as int) + seq![] =~= bytes@.take(n as int));
    }
    slice_subrange(bytes, 0, n)
}

/// `std::str::from_utf8`: bytes that are UTF-8 as the text they encode, and `None` for
/// bytes that are not.
#[verifier::external_body]
fn text_of(bytes: &[u8]) -> (res: Option<&str>)
    ensures
        match res {
            Some(s) => valid_utf8(bytes@) && s@ == decode_utf8(bytes@),
            None => !valid_utf8(bytes@),
        },
{
    std::str::from_utf8(bytes).ok()
}

/// The server's side of the dynamic channel, one PDU at a time.
///
/// Stateful for one reason: a Data First says how long the whole payload is and
/// carries the start of it, and the Data PDUs after it carry the rest. Everything a
/// Display Control session receives arrives whole, so the buffer stays empty, but a
/// split payload is the server's decision, not this client's.
#[derive(Debug)]
pub struct Incoming {
    /// The channel a split payload is being gathered for, and how long it will be.
    gathering: Option<(u32, u32)>,
    buffer: Vec<u8>,
}

/// The payload in progress, if there is one: the channel it is for, how long it will be,
/// and what has come.
pub struct IncomingView {
    pub open: Option<(u32, u32, Seq<u8>)>,
}

impl View for Incoming {
    type V = IncomingView;

    closed spec fn view(&self) -> IncomingView {
        IncomingView {
            open: match self.gathering {
                Some((channel, total)) => Some((channel, total, self.buffer@)),
                None => None,
            },
        }
    }
}

pub open spec fn refusal(field: &'static str, value: u64) -> Malformed {
    Malformed::Refused { what: WHAT, field, value }
}

pub open spec fn capped(n: nat) -> u64 {
    if n < u32::MAX { n as u64 } else { u32::MAX as u64 }
}

pub open spec fn create_spec(c: Cursor, cb_id: u8) -> Result<Option<MessageView>, Malformed> {
    match field_step(c, cb_id) {
        Step::Stop(e) => Err(e),
        Step::Got(channel, c) => {
            let name = until_zero(c.rest());
            if valid_utf8(name) {
                Ok(Some(MessageView::Create { channel, name: decode_utf8(name) }))
            } else {
                Err(c.refused("a channel name that is not text, of", capped(name.len())))
            }
        },
    }
}

impl IncomingView {
    pub open spec fn abandoned() -> IncomingView {
        IncomingView { open: None }
    }

    /// The start of a split payload.
    pub open spec fn begun(self, c: Cursor, sp: u8, cb_id: u8) -> (
        IncomingView,
        Result<Option<MessageView>, Malformed>,
    ) {
        match field_step(c, cb_id) {
            Step::Stop(e) => (self, Err(e)),
            Step::Got(channel, c) => match field_step(c, sp) {
                Step::Stop(e) => (self, Err(e)),
                Step::Got(total, c) => if c.rest().len() >= total {
                    (
                        Self::abandoned(),
                        Err(refusal("a first piece already as long as its", total as u64)),
                    )
                } else {
                    (IncomingView { open: Some((channel, total, c.rest())) }, Ok(None))
                },
            },
        }
    }

    /// A whole payload, or a piece of the one in progress.
    pub open spec fn added(self, c: Cursor, cb_id: u8) -> (
        IncomingView,
        Result<Option<MessageView>, Malformed>,
    ) {
        match field_step(c, cb_id) {
            Step::Stop(e) => (self, Err(e)),
            Step::Got(channel, c) => match self.open {
                None => (self, Ok(Some(MessageView::Data { channel, data: c.rest() }))),
                Some((gathering, total, held)) => {
                    let whole = held + c.rest();
                    if channel != gathering {
                        (Self::abandoned(), Err(refusal("a piece for channel", channel as u64)))
                    } else if whole.len() < total {
                        (IncomingView { open: Some((gathering, total, whole)) }, Ok(None))
                    } else if whole.len() > total {
                        (Self::abandoned(), Err(refusal("pieces coming to", capped(whole.len()))))
                    } else {
                        (Self::abandoned(), Ok(Some(MessageView::Data { channel, data: whole })))
                    }
                },
            },
        }
    }

    /// What one PDU does: the message it completes, or what was wrong with it.
    pub open spec fn pushed(self, bytes: Seq<u8>) -> (
        IncomingView,
        Result<Option<MessageView>, Malformed>,
    ) {
        match cursor(WHAT, bytes).u8() {
            Step::Stop(e) => (self, Err(e)),
            Step::Got(header, c) => {
                let (command, sp, cb_id) = (header / 16, header / 4 % 4, header % 4);
                if command == CAPABILITIES {
                    (
                        self,
                        match c.u8() {
                            Step::Stop(e) => Err(e),
                            Step::Got(_, c) => match c.u16_le() {
                                Step::Stop(e) => Err(e),
                                Step::Got(version, c) => Ok(Some(MessageView::Capabilities { version })),
                            },
                        },
                    )
                } else if command == CREATE {
                    (self, create_spec(c, cb_id))
                } else if command == CLOSE {
                    (
                        self,
                        match field_step(c, cb_id) {
                            Step::Stop(e) => Err(e),
                            Step::Got(channel, c) => Ok(Some(MessageView::Close { channel })),
                        },
                    )
                } else if command == DATA_FIRST {
                    self.begun(c, sp, cb_id)
                } else if command == DATA {
                    self.added(c, cb_id)
                } else {
                    (self, Err(c.refused("a command", command as u64)))
                }
            },
        }
    }
}

/// Whether an outcome that borrows is the one wanted.
pub open spec fn completes(
    res: Result<Option<Message<'_>>, Malformed>,
    want: Result<Option<MessageView>, Malformed>,
) -> bool {
    match (res, want) {
        (Ok(Some(message)), Ok(Some(w))) => message@ == w,
        (Ok(None), Ok(None)) => true,
        (Err(e), Err(w)) => e == w,
        _ => false,
    }
}

impl Incoming {
    pub fn new() -> (i: Incoming)
        ensures
            i@ == IncomingView::abandoned(),
    {
        Incoming { gathering: None, buffer: Vec::new() }
    }

    /// Read one PDU, and hand back the message if this PDU completed one.
    pub fn push<'a>(&'a mut self, bytes: &'a [u8]) -> (res: Result<Option<Message<'a>>, Malformed>)
        ensures
            final(self)@ == old(self)@.pushed(bytes@).0,
            completes(res, old(self)@.pushed(bytes@).1),
    {
        let mut r = Reader::new(WHAT, bytes);
        let header = r.u8()?;
        let (command, sp, cb_id): (u8, u8, u8) = (header / 16, header / 4 % 4, header % 4);
        match command {
            CAPABILITIES => {
                r.u8()?; // Pad
                let version = r.u16_le()?;
                Ok(Some(Message::Capabilities { version }))
            },
            CREATE => {
                let channel = read_field(&mut r, cb_id)?;
                let name = before_zero(r.rest());
                match text_of(name) {
                    Some(name) => Ok(Some(Message::Create { channel, name })),
                    None => {
                        let length: u64 = name.len() as u64;
                        let said: u64 = if length < u32::MAX as u64 { length } else { u32::MAX as u64 };
                        Err(r.refuse("a channel name that is not text, of", said))
                    },
                }
            },
            CLOSE => {
                let channel = read_field(&mut r, cb_id)?;
                Ok(Some(Message::Close { channel }))
            },
            DATA_FIRST => {
                let channel = read_field(&mut r, cb_id)?;
                let total = read_field(&mut r, sp)?;
                let data = r.rest();
                if data.len() as u64 >= total as u64 {
                    return Err(self.abandon("a first piece already as long as its", total as u64));
                }
                self.gathering = Some((channel, total));
                self.buffer.clear();
                self.buffer.extend_from_slice(data);
                assert(self.buffer@ =~= data@);
                Ok(None)
            },
            DATA => {
                let channel = read_field(&mut r, cb_id)?;
                let data = r.rest();
                let (gathering, total) = match self.gathering {
                    Some(open) => open,
                    None => {
                        return Ok(Some(Message::Data { channel, data }));
                    },
                };
                if channel != gathering {
                    return Err(self.abandon("a piece for channel", channel as u64));
                }
                self.buffer.extend_from_slice(data);
                assert(self.buffer@ =~= old(self).buffer@ + data@);
                let gathered: u64 = self.buffer.len() as u64;
                if gathered < total as u64 {
                    return Ok(None);
                }
                if gathered > total as u64 {
                    let said: u64 = if gathered < u32::MAX as u64 { gathered } else { u32::MAX as u64 };
                    return Err(self.abandon("pieces coming to", said));
                }
                self.gathering = None;
                Ok(Some(Message::Data { channel, data: self.buffer.as_slice() }))
            },
            other => Err(r.refuse("a command", other as u64)),
        }
    }

    /// Forget what was being gathered, and say why it was given up on.
    fn abandon(&mut self, field: &'static str, value: u64) -> (e: Malformed)
        ensures
            final(self)@ == IncomingView::abandoned(),
            e == refusal(field, value),
    {
        self.gathering = None;
        self.buffer.clear();
        Malformed::Refused { what: WHAT, field, value }
    }
}

/// Agree to the version the server asked for.
pub fn capabilities_response(version: u16) -> (bytes: Vec<u8>)
    ensures
        bytes@ == seq![header_byte(CAPABILITIES, BYTE, BYTE), 0u8] + le16(version),
{
    let mut w = Writer::with_capacity(4);
    w.u8(header(CAPABILITIES, BYTE, BYTE));
    w.u8(0); // Pad
    w.u16_le(version);
    assert(w@ =~= seq![header_byte(CAPABILITIES, BYTE, BYTE), 0u8] + le16(version));
    w.finish()
}

/// A command and the channel it is about, and whatever follows.
pub open spec fn pdu_bytes(command: u8, channel: u32, rest: Seq<u8>) -> Seq<u8> {
    seq![header_byte(command, BYTE, width_of(channel))] + field_bytes(channel) + rest
}

/// Accept or refuse a channel the server asked to open. `status` is [`ACCEPTED`] or
/// [`NO_LISTENER`].
pub fn create_response(channel: u32, status: u32) -> (bytes: Vec<u8>)
    ensures
        bytes@ == pdu_bytes(CREATE, channel, le32(status)),
{
    let mut w = Writer::with_capacity(9);
    w.u8(header(CREATE, BYTE, field_width(channel)));
    write_field(&mut w, channel);
    w.u32_le(status);
    assert(w@ =~= pdu_bytes(CREATE, channel, le32(status)));
    w.finish()
}

/// Close a channel, which a client does to answer a server's Close or to give one up.
pub fn close(channel: u32) -> (bytes: Vec<u8>)
    ensures
        bytes@ == pdu_bytes(CLOSE, channel, seq![]),
{
    let mut w = Writer::with_capacity(5);
    w.u8(header(CLOSE, BYTE, field_width(channel)));
    write_field(&mut w, channel);
    assert(w@ =~= pdu_bytes(CLOSE, channel, seq![]));
    w.finish()
}

/// A payload for one channel. Refused rather than split if it does not fit one PDU:
/// the only thing this client sends on a dynamic channel is a monitor layout, which
/// is sixty-four bytes.
pub fn data(channel: u32, payload: &[u8]) -> (res: Result<Vec<u8>, TooLong>)
    ensures
        match res {
            Ok(bytes) => payload@.len() <= MAX_DATA && bytes@ == pdu_bytes(DATA, channel, payload@),
            Err(e) => payload@.len() > MAX_DATA && e == TooLong(payload@.len() as usize),
        },
{
    if payload.len() > MAX_DATA {
        return Err(TooLong(payload.len()));
    }
    let mut w = Writer::with_capacity(5 + payload.len());
    w.u8(header(DATA, BYTE, field_width(channel)));
    write_field(&mut w, channel);
    w.bytes(payload);
    assert(w@ =~= pdu_bytes(DATA, channel, payload@));
    Ok(w.finish())
}

/// A channel number written as narrowly as it fits reads back at the width it says.
pub proof fn a_field_reads_back(c: Cursor, value: u32)
    requires
        c.faces(field_bytes(value)),
    ensures
        field_step(c, width_of(value)) == Step::Got(value, c.plus(field_bytes(value).len() as int)),
{
    let s = field_bytes(value);
    facing(c, s);
    assert(c.bytes[c.at + 0] == s[0]);
    if value > 0xFF {
        assert(c.bytes[c.at + 1] == s[1]);
    }
    if value > 0xFFFF {
        assert(c.bytes[c.at + 2] == s[2]);
        assert(c.bytes[c.at + 3] == s[3]);
    }
}

/// What one side sends on a channel the other reads as that: data whole, and a close.
pub proof fn data_and_close_arrive(channel: u32, payload: Seq<u8>)
    ensures
        IncomingView::abandoned().pushed(pdu_bytes(DATA, channel, payload)) == (
            IncomingView::abandoned(),
            Ok::<Option<MessageView>, Malformed>(Some(MessageView::Data { channel, data: payload })),
        ),
        IncomingView::abandoned().pushed(pdu_bytes(CLOSE, channel, payload)).1 == Ok::<
            Option<MessageView>,
            Malformed,
        >(Some(MessageView::Close { channel })),
{
    pdu_reads_back(DATA, channel, payload);
    pdu_reads_back(CLOSE, channel, payload);
}

proof fn pdu_reads_back(command: u8, channel: u32, payload: Seq<u8>)
    requires
        command < 16,
    ensures
        ({
            let pdu = pdu_bytes(command, channel, payload);
            let c = cursor(WHAT, pdu).plus(1);
            &&& pdu[0] / 16 == command && pdu[0] % 4 == width_of(channel)
            &&& cursor(WHAT, pdu).u8() == Step::Got(pdu[0], c)
            &&& field_step(c, width_of(channel)) matches Step::Got(v, after) && v == channel
                && after.rest() == payload
        }),
{
    let pdu = pdu_bytes(command, channel, payload);
    let head = seq![header_byte(command, BYTE, width_of(channel))];
    let field = field_bytes(channel);
    let c = cursor(WHAT, pdu);
    assert(pdu.subrange(0, pdu.len() as int) =~= pdu);
    facing_both(c, head + field, payload);
    facing_both(c, head, field);
    a_field_reads_back(c.plus(1), channel);
    assert(pdu[0] == head[0]);
    assert(pdu.subrange(1 + field.len() as int, pdu.len() as int) =~= payload);
}

/// A payload split in two, the first piece short of the whole, comes back whole on the
/// channel it was for.
pub proof fn a_split_payload_arrives_whole(channel: u32, total: u32, first: Seq<u8>, rest: Seq<u8>)
    requires
        first.len() + rest.len() == total,
        rest.len() > 0,
    ensures
        ({
            let open = IncomingView { open: Some((channel, total, first)) };
            open.pushed(pdu_bytes(DATA, channel, rest)) == (
                IncomingView::abandoned(),
                Ok::<Option<MessageView>, Malformed>(
                    Some(MessageView::Data { channel, data: first + rest }),
                ),
            )
        }),
{
    pdu_reads_back(DATA, channel, rest);
}

/// A piece that is refused gives its payload up, so the next PDU for any channel stands on
/// its own.
pub proof fn a_refused_piece_gives_its_payload_up(s: IncomingView, channel: u32, piece: Seq<u8>, next: u32, data: Seq<u8>)
    requires
        s.pushed(pdu_bytes(DATA, channel, piece)).1 is Err,
    ensures
        ({
            let after = s.pushed(pdu_bytes(DATA, channel, piece)).0;
            &&& after == IncomingView::abandoned()
            &&& after.pushed(pdu_bytes(DATA, next, data)) == (
                after,
                Ok::<Option<MessageView>, Malformed>(Some(MessageView::Data { channel: next, data })),
            )
        }),
{
    data_and_close_arrive(channel, piece);
    data_and_close_arrive(next, data);
}

/// A number in a field of one, two or four bytes.
pub open spec fn held_in(value: u32, width: u8) -> Seq<u8> {
    if width == 0 {
        seq![value as u8]
    } else if width == 1 {
        le16(value as u16)
    } else {
        le32(value)
    }
}

pub open spec fn fits(value: u32, width: u8) -> bool {
    (width == 0 && value <= 0xFF) || (width == 1 && value <= 0xFFFF) || width == 2
}

proof fn a_field_is_next(c: Cursor, value: u32, width: u8, rest: Seq<u8>)
    requires
        fits(value, width),
        c.faces(held_in(value, width) + rest),
    ensures
        ({
            let n: int = if width == 0 { 1 } else if width == 1 { 2 } else { 4 };
            field_step(c, width) == Step::Got(value, c.plus(n)) && c.plus(n).faces(rest)
        }),
{
    if width == 0 {
        byte_next(c, value as u8, rest);
    } else if width == 1 {
        word_next(c, value as u16, rest);
    } else {
        long_next(c, value, rest);
    }
}

/// What comes behind the first byte of a PDU, and behind the channel it names in as many bytes as
/// that says.
proof fn a_channel_is_next(command: u8, sp: u8, width: u8, channel: u32, rest: Seq<u8>)
    requires
        command < 16,
        sp < 4,
        fits(channel, width),
    ensures
        ({
            let pdu = seq![(16 * command + 4 * sp + width) as u8] + (held_in(channel, width) + rest);
            let c = cursor(WHAT, pdu).plus(1);
            let n: int = if width == 0 { 1 } else if width == 1 { 2 } else { 4 };
            &&& cursor(WHAT, pdu).u8() == Step::Got((16 * command + 4 * sp + width) as u8, c)
            &&& field_step(c, width) == Step::Got(channel, c.plus(n))
            &&& c.plus(n).faces(rest) && c.plus(n).rest() == rest
        }),
{
    let first = (16 * command + 4 * sp + width) as u8;
    let pdu = seq![first] + (held_in(channel, width) + rest);
    let c = cursor(WHAT, pdu);
    let n: int = if width == 0 { 1 } else if width == 1 { 2 } else { 4 };
    front_faces(WHAT, pdu);
    byte_next(c, first, held_in(channel, width) + rest);
    a_field_is_next(c.plus(1), channel, width, rest);
    assert(c.plus(1).plus(n).rest() =~= rest);
}

/// A PDU's first byte says what it is and how wide its fields are: data for a channel, standing on
/// its own where nothing is being gathered; and a channel closed.
pub proof fn data_is_for_the_channel_it_names(sp: u8, width: u8, channel: u32, data: Seq<u8>)
    requires
        sp < 4,
        fits(channel, width),
    ensures
        IncomingView::abandoned().pushed(
            seq![(48 + 4 * sp + width) as u8] + (held_in(channel, width) + data),
        ) == (
            IncomingView::abandoned(),
            Ok::<Option<MessageView>, Malformed>(Some(MessageView::Data { channel, data })),
        ),
        IncomingView::abandoned().pushed(
            seq![(64 + 4 * sp + width) as u8] + (held_in(channel, width) + data),
        ) == (
            IncomingView::abandoned(),
            Ok::<Option<MessageView>, Malformed>(Some(MessageView::Close { channel })),
        ),
{
    a_channel_is_next(3, sp, width, channel, data);
    a_channel_is_next(4, sp, width, channel, data);
    let (d, c) = ((48 + 4 * sp + width) as u8, (64 + 4 * sp + width) as u8);
    assert(d / 16 == 3 && d % 4 == width && c / 16 == 4 && c % 4 == width);
}

/// A first piece names its channel and how long the whole is, and is held until the rest of it
/// comes.
pub proof fn a_first_piece_is_held(wide: u8, width: u8, channel: u32, total: u32, data: Seq<u8>)
    requires
        fits(total, wide),
        fits(channel, width),
        data.len() < total,
    ensures
        IncomingView::abandoned().pushed(
            seq![(32 + 4 * wide + width) as u8] + (held_in(channel, width) + (held_in(total, wide) + data)),
        ) == (
            IncomingView { open: Some((channel, total, data)) },
            Ok::<Option<MessageView>, Malformed>(None),
        ),
{
    let rest = held_in(total, wide) + data;
    let first = (32 + 4 * wide + width) as u8;
    a_channel_is_next(2, wide, width, channel, rest);
    assert(first / 16 == 2 && first / 4 % 4 == wide && first % 4 == width);
    let n: int = if width == 0 { 1 } else if width == 1 { 2 } else { 4 };
    let m: int = if wide == 0 { 1 } else if wide == 1 { 2 } else { 4 };
    let pdu = seq![first] + (held_in(channel, width) + rest);
    let c = cursor(WHAT, pdu).plus(1).plus(n);
    a_field_is_next(c, total, wide, data);
    assert(c.plus(m).rest() =~= data);
}

/// A channel is opened under the number and the name that were sent, the name up to its zero.
pub proof fn a_channel_is_opened_under_its_name(sp: u8, width: u8, channel: u32, name: Seq<char>, more: Seq<u8>)
    requires
        sp < 4,
        fits(channel, width),
        forall|i: int| 0 <= i < encode_utf8(name).len() ==> #[trigger] encode_utf8(name)[i] != 0,
    ensures
        IncomingView::abandoned().pushed(
            seq![(16 + 4 * sp + width) as u8] + (held_in(channel, width) + (encode_utf8(name) + (seq![0u8] + more))),
        ).1 == Ok::<Option<MessageView>, Malformed>(Some(MessageView::Create { channel, name })),
{
    let bytes = encode_utf8(name);
    let rest = bytes + (seq![0u8] + more);
    let first = (16 + 4 * sp + width) as u8;
    a_channel_is_next(1, sp, width, channel, rest);
    assert(first / 16 == 1 && first % 4 == width);
    ends_at_zero(bytes, more);
    vstd::utf8::encode_utf8_valid_utf8(name);
    vstd::utf8::encode_utf8_decode_utf8(name);
}

proof fn ends_at_zero(bytes: Seq<u8>, more: Seq<u8>)
    requires
        forall|i: int| 0 <= i < bytes.len() ==> #[trigger] bytes[i] != 0,
    ensures
        until_zero(bytes + (seq![0u8] + more)) == bytes,
    decreases bytes.len(),
{
    let all = bytes + (seq![0u8] + more);
    if bytes.len() == 0 {
        assert(all[0] == 0);
        assert(until_zero(all) =~= bytes);
    } else {
        let tail = bytes.skip(1);
        assert forall|i: int| 0 <= i < tail.len() implies #[trigger] tail[i] != 0 by {
            assert(tail[i] == bytes[i + 1]);
        }
        ends_at_zero(tail, more);
        assert(all.skip(1) =~= tail + (seq![0u8] + more));
        assert(all[0] == bytes[0]);
        assert(seq![bytes[0]] + tail =~= bytes);
    }
}

} // verus!
