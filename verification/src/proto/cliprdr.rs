//! MS-RDPECLIP: the clipboard, on a static virtual channel of its own.
//!
//! One channel, [`CHANNEL_NAME`], carried by [`super::channel`] rather than by the dynamic
//! transport [`super::display`] rides: the clipboard predates that transport, and a
//! Windows host opens it as the client asked for it in `CS_NET`.
//!
//! # The negotiation
//!
//! The server speaks first, and the client's whole side of the sequence follows from what
//! it says:
//!
//! ```text
//!   server  --  Monitor Ready  -->
//!           <--  Clipboard Capabilities, Format List  --
//!           --  Format List Response  -->
//! ```
//!
//! After that either end may announce a copy with a **Format List**, a list of format ids
//! and nothing else, and either end may ask for the bytes of one with a **Format Data
//! Request**, answered by a **Format Data Response**. Both directions are lazy: a copy
//! costs an announcement, and the bytes cost a second round trip that only happens if
//! somebody pastes.
//!
//! # What this module decides, and what it does not
//!
//! Nothing here knows what a clipboard *holds*. A format is a number and its contents are
//! bytes, and choosing a format, converting text, and deciding what to advertise all
//! belong above. This is the wire: six PDUs, in both directions.
//!
//! Two of the negotiation's dials are turned off here, because turning them on would be
//! promising something:
//!
//! - **Short format names.** `CB_USE_LONG_FORMAT_NAMES` is not asked for, so both ends use
//!   the fixed thirty-six byte entry: an id and a name field this client never reads.
//!   MS-RDPECLIP 3.1.5.2 makes long names the form only when *both* ends offer them, so
//!   not offering settles the format of every list in either direction.
//! - **No file transfer and no locking.** `CB_STREAM_FILECLIP_ENABLED` and
//!   `CB_CAN_LOCK_CLIPDATA` stay clear, so a server has no reason to send the file
//!   contents and clipboard-lock PDUs; one that sends them anyway is ignored by name.
//!
//! MS-RDPECLIP 2.2.

use vstd::prelude::*;
use vstd::arithmetic::div_mod::lemma_mod_multiples_basic;
use vstd::slice::slice_subrange;

use super::wire::{
    cursor, front_faces, le16, le16_at, le32, le32_at, long_next, numbers_read_back, word_next, zeros, Cursor, Malformed,
    Reader, Step, Writer,
};

verus! {

/// The name the channel is asked for under in `CS_NET`, and the name a server answers on.
pub const CHANNEL_NAME: &'static str = "cliprdr";

/// `CLIPRDR_HEADER.msgType`, of the six this client speaks.
pub const MONITOR_READY: u16 = 0x0001;
pub const FORMAT_LIST: u16 = 0x0002;
pub const FORMAT_LIST_RESPONSE: u16 = 0x0003;
pub const FORMAT_DATA_REQUEST: u16 = 0x0004;
pub const FORMAT_DATA_RESPONSE: u16 = 0x0005;
pub const CLIP_CAPS: u16 = 0x0007;

/// `CLIPRDR_HEADER.msgFlags`. A response carries exactly one of the two, and this client
/// reads the absence of `CB_RESPONSE_OK` as the failure it is rather than taking the body
/// of a PDU nobody vouched for.
pub const RESPONSE_OK: u16 = 0x0001;

/// The type, the flags and the length every PDU on this channel starts with.
pub const HEADER: usize = 8;

/// `CB_CAPSTYPE_GENERAL`, and the twelve bytes one of them takes.
pub const CAPSTYPE_GENERAL: u16 = 0x0001;
pub const GENERAL_CAPABILITY: u16 = 12;

/// `CB_CAPS_VERSION_2`, which is what every Windows host since Vista announces.
pub const CAPS_VERSION_2: u32 = 0x0000_0002;

/// One `CLIPRDR_SHORT_FORMAT_NAME`: the format id, and the thirty-two bytes of name that
/// follow it.
pub const SHORT_NAME: usize = 4 + 32;

pub const WHAT: &'static str = "a clipboard PDU";

/// One thing the remote clipboard said.
#[derive(Clone, Copy, Debug, PartialEq, Eq)]
pub enum Message<'a> {
    /// What the server's clipboard can do, which it says before the Monitor Ready.
    ///
    /// Nothing branches on it: this client speaks the short-name form of one text format
    /// whatever a server offers, and offering less is what settles the form (see the
    /// module doc). It is read for the record, where a server that turns out to want
    /// something else is a line rather than a mystery.
    Capabilities { version: u32, flags: u32 },
    /// The server's clipboard is live. The client answers with [`capabilities`] and a
    /// [`format_list`], even an empty one, which is what tells the server there is a
    /// clipboard on this end at all.
    MonitorReady,
    /// The remote copied something, and these are the formats it can produce it in.
    Formats(&'a [u8]),
    /// What the server made of a [`format_list`] this client sent.
    ListResponse { ok: bool },
    /// The remote is pasting, and **is waiting**: every one of these has to be answered
    /// with a [`data_response`], including with nothing. A request left unanswered is a
    /// remote application stopped inside its own paste handler.
    DataRequest { format: u32 },
    /// The bytes of a format this client asked for, or `None` for the `CB_RESPONSE_FAIL` a
    /// peer sends when it could not produce them, which it does not say why about.
    Data(Option<&'a [u8]>),
    /// A PDU this client has nothing to do with: the file-transfer and clipboard-locking
    /// pairs it did not ask for, and a temporary directory it has no files to put in.
    Ignored(u16),
}

/// A [`Message`] by its contents.
pub enum MessageView {
    Capabilities { version: u32, flags: u32 },
    MonitorReady,
    Formats(Seq<u8>),
    ListResponse { ok: bool },
    DataRequest { format: u32 },
    Data(Option<Seq<u8>>),
    Ignored(u16),
}

impl<'a> View for Message<'a> {
    type V = MessageView;

    open spec fn view(&self) -> MessageView {
        match self {
            Message::Capabilities { version, flags } => MessageView::Capabilities {
                version: *version,
                flags: *flags,
            },
            Message::MonitorReady => MessageView::MonitorReady,
            Message::Formats(list) => MessageView::Formats(list@),
            Message::ListResponse { ok } => MessageView::ListResponse { ok: *ok },
            Message::DataRequest { format } => MessageView::DataRequest { format: *format },
            Message::Data(data) => MessageView::Data(
                match data {
                    Some(data) => Some(data@),
                    None => None,
                },
            ),
            Message::Ignored(kind) => MessageView::Ignored(*kind),
        }
    }
}

/// The ids of a list of short names.
pub open spec fn short_names_spec(c: Cursor, got: Seq<u32>) -> Result<Seq<u32>, Malformed>
    decreases c.left(),
{
    if c.left() <= 0 {
        Ok(got)
    } else {
        match c.u32_le() {
            Step::Stop(e) => Err(e),
            Step::Got(id, c) => match c.skip(SHORT_NAME - 4) {
                Step::Stop(e) => Err(e),
                Step::Got(_, next) => if 0 <= next.left() < c.left() {
                    short_names_spec(next, got.push(id))
                } else {
                    Ok(got)
                },
            },
        }
    }
}

/// Past a name that ends in a zero unit.
pub open spec fn long_name_step(c: Cursor) -> Step<()>
    decreases c.left(),
{
    match c.u16_le() {
        Step::Stop(e) => Step::Stop(e),
        Step::Got(unit, next) => if unit == 0 {
            Step::Got((), next)
        } else if 0 <= next.left() < c.left() {
            long_name_step(next)
        } else {
            Step::Got((), next)
        },
    }
}

/// The ids of a list of long names.
pub open spec fn long_names_spec(c: Cursor, got: Seq<u32>) -> Result<Seq<u32>, Malformed>
    decreases c.left(),
{
    if c.left() <= 0 {
        Ok(got)
    } else {
        match c.u32_le() {
            Step::Stop(e) => Err(e),
            Step::Got(id, after) => match long_name_step(after) {
                Step::Stop(e) => Err(e),
                Step::Got(_, next) => if 0 <= next.left() < c.left() {
                    long_names_spec(next, got.push(id))
                } else {
                    Ok(got)
                },
            },
        }
    }
}

/// The ids of a format list: of short names where it is a whole number of them.
pub open spec fn formats_spec(list: Seq<u8>) -> Result<Seq<u32>, Malformed> {
    if list.len() % SHORT_NAME as nat == 0 {
        short_names_spec(cursor(WHAT, list), seq![])
    } else {
        long_names_spec(cursor(WHAT, list), seq![])
    }
}

/// The format ids out of a [`Message::Formats`].
///
/// Short names are what the capability exchange settled on, so each entry is
/// [`SHORT_NAME`] bytes and only its first four are read. A list that is not a whole
/// number of them is read as long names instead: a server that ignored the negotiation
/// still copied something, and the ids are in the same place at the front of each entry
/// either way.
pub fn formats(list: &[u8]) -> (res: Result<Vec<u32>, Malformed>)
    ensures
        match formats_spec(list@) {
            Ok(ids) => res matches Ok(got) && got@ == ids,
            Err(e) => res == Err::<Vec<u32>, Malformed>(e),
        },
{
    let mut r = Reader::new(WHAT, list);
    let mut ids: Vec<u32> = Vec::new();
    assert(ids@ =~= seq![]);
    if list.len() % SHORT_NAME == 0 {
        while !r.is_empty()
            invariant
                r@.within(),
                list@.len() % SHORT_NAME as nat == 0,
                short_names_spec(cursor(WHAT, list@), seq![]) == short_names_spec(r@, ids@),
            decreases r@.left(),
        {
            let id = r.u32_le()?;
            ids.push(id);
            r.skip(SHORT_NAME - 4)?;
        }
        return Ok(ids);
    }
    while !r.is_empty()
        invariant
            r@.within(),
            list@.len() % SHORT_NAME as nat != 0,
            long_names_spec(cursor(WHAT, list@), seq![]) == long_names_spec(r@, ids@),
        decreases r@.left(),
    {
        let id = r.u32_le()?;
        ids.push(id);
        skip_name(&mut r)?;
    }
    Ok(ids)
}

/// A long name is UTF-16 and terminated, so the terminator is the pair of zero bytes: not
/// one byte, which would leave the next id misaligned.
fn skip_name(r: &mut Reader<'_>) -> (res: Result<(), Malformed>)
    requires
        old(r)@.within(),
    ensures
        match long_name_step(old(r)@) {
            Step::Got(_, next) => res == Ok::<(), Malformed>(()) && final(r)@ == next && next.left()
                < old(r)@.left(),
            Step::Stop(e) => res == Err::<(), Malformed>(e),
        },
        final(r)@.within(),
{
    loop
        invariant
            r@.within(),
            r@.left() <= old(r)@.left(),
            long_name_step(old(r)@) == long_name_step(r@),
        decreases r@.left(),
    {
        if r.u16_le()? == 0 {
            return Ok(());
        }
    }
}

/// The announced length is the body's, and it has to be there. Anything past it is padding
/// a peer added, and is not part of what it said.
pub open spec fn body_spec(pdu: Seq<u8>, length: u32) -> Result<Seq<u8>, Malformed> {
    if pdu.len() - HEADER < length {
        Err(
            Malformed::Short {
                what: WHAT,
                len: pdu.len() as usize,
                at: HEADER,
                need: if length <= usize::MAX { length as usize } else { usize::MAX },
            },
        )
    } else {
        Ok(pdu.subrange(HEADER as int, HEADER + length))
    }
}

/// What a PDU of this type, with these flags and this body, says.
#[verifier::opaque]
pub open spec fn message_spec(kind: u16, flags: u16, body: Seq<u8>) -> Result<MessageView, Malformed> {
    let ok = flags & RESPONSE_OK != 0;
    if kind == CLIP_CAPS {
        match sets_spec(body) {
            Ok((version, flags)) => Ok(MessageView::Capabilities { version, flags }),
            Err(e) => Err(e),
        }
    } else if kind == MONITOR_READY {
        Ok(MessageView::MonitorReady)
    } else if kind == FORMAT_LIST {
        Ok(MessageView::Formats(body))
    } else if kind == FORMAT_LIST_RESPONSE {
        Ok(MessageView::ListResponse { ok })
    } else if kind == FORMAT_DATA_REQUEST {
        match cursor(WHAT, body).u32_le() {
            Step::Got(format, _) => Ok(MessageView::DataRequest { format }),
            Step::Stop(e) => Err(e),
        }
    } else if kind == FORMAT_DATA_RESPONSE {
        Ok(MessageView::Data(if ok { Some(body) } else { None }))
    } else {
        Ok(MessageView::Ignored(kind))
    }
}

/// What one whole PDU says.
pub open spec fn decode_spec(pdu: Seq<u8>) -> Result<MessageView, Malformed> {
    match cursor(WHAT, pdu).u16_le() {
        Step::Stop(e) => Err(e),
        Step::Got(kind, c) => match c.u16_le() {
            Step::Stop(e) => Err(e),
            Step::Got(flags, c) => match c.u32_le() {
                Step::Stop(e) => Err(e),
                Step::Got(length, c) => match body_spec(pdu, length) {
                    Err(e) => Err(e),
                    Ok(body) => message_spec(kind, flags, body),
                },
            },
        },
    }
}

/// Read one whole PDU off the channel.
pub fn decode(pdu: &[u8]) -> (res: Result<Message<'_>, Malformed>)
    ensures
        match decode_spec(pdu@) {
            Ok(said) => res matches Ok(got) && got@ == said,
            Err(e) => res matches Err(got) && got == e,
        },
{
    let mut r = Reader::new(WHAT, pdu);
    let kind = r.u16_le()?;
    let flags = r.u16_le()?;
    let length = r.u32_le()?;
    if (pdu.len() - HEADER) as u64 <= u32::MAX as u64 && length > (pdu.len() - HEADER) as u32 {
        let need: usize = if length as u64 <= usize::MAX as u64 { length as usize } else { usize::MAX };
        return Err(Malformed::Short { what: WHAT, len: pdu.len(), at: HEADER, need });
    }
    proof {
        reveal(message_spec);
    }
    let body = slice_subrange(pdu, HEADER, HEADER + length as usize);
    let ok = flags & RESPONSE_OK != 0;
    Ok(
        match kind {
            CLIP_CAPS => {
                let (version, flags) = capabilities_of(body)?;
                Message::Capabilities { version, flags }
            },
            MONITOR_READY => Message::MonitorReady,
            FORMAT_LIST => Message::Formats(body),
            FORMAT_LIST_RESPONSE => Message::ListResponse { ok },
            FORMAT_DATA_REQUEST => {
                let mut r = Reader::new(WHAT, body);
                Message::DataRequest { format: r.u32_le()? }
            },
            FORMAT_DATA_RESPONSE => Message::Data(if ok { Some(body) } else { None }),
            other => Message::Ignored(other),
        },
    )
}

/// One capability set: the version and the flags of a general one, those before it
/// otherwise.
pub open spec fn set_step(c: Cursor, general: (u32, u32)) -> Step<(u32, u32)> {
    match c.u16_le() {
        Step::Stop(e) => Step::Stop(e),
        Step::Got(kind, c) => match c.u16_le() {
            Step::Stop(e) => Step::Stop(e),
            Step::Got(length, c) => if length < 4 {
                Step::Stop(c.refused("a capability set length", length as u64))
            } else {
                match c.bytes(length - 4) {
                    Step::Stop(e) => Step::Stop(e),
                    Step::Got(set, c) => if kind != CAPSTYPE_GENERAL {
                        Step::Got(general, c)
                    } else {
                        match cursor(WHAT, set).u32_le() {
                            Step::Stop(e) => Step::Stop(e),
                            Step::Got(version, inner) => match inner.u32_le() {
                                Step::Stop(e) => Step::Stop(e),
                                Step::Got(flags, _) => Step::Got((version, flags), c),
                            },
                        }
                    },
                }
            },
        },
    }
}

/// The last general set of `n` more, or the one before them.
pub open spec fn sets_left_spec(c: Cursor, n: nat, general: (u32, u32)) -> Result<(u32, u32), Malformed>
    decreases n,
{
    if n == 0 {
        Ok(general)
    } else {
        match set_step(c, general) {
            Step::Stop(e) => Err(e),
            Step::Got(general, c) => sets_left_spec(c, (n - 1) as nat, general),
        }
    }
}

/// The version and flags a server claims, zero for one that claims none.
pub open spec fn sets_spec(body: Seq<u8>) -> Result<(u32, u32), Malformed> {
    match cursor(WHAT, body).u16_le() {
        Step::Stop(e) => Err(e),
        Step::Got(count, c) => match c.skip(2) {
            Step::Stop(e) => Err(e),
            Step::Got(_, c) => sets_left_spec(c, count as nat, (0, 0)),
        },
    }
}

/// The general capability set out of the server's capabilities PDU, or a version and flags
/// of zero for a server that sent none.
///
/// The sets are a list, and only one of them has ever existed; the rest are stepped over
/// by the length each announces rather than assumed away, so a server that adds one is
/// read rather than refused.
fn capabilities_of(body: &[u8]) -> (res: Result<(u32, u32), Malformed>)
    ensures
        res == sets_spec(body@),
{
    let mut r = Reader::new(WHAT, body);
    let count = r.u16_le()?;
    r.skip(2)?; // pad
    let mut general: (u32, u32) = (0, 0);
    for i in 0..count
        invariant
            sets_spec(body@) == sets_left_spec(r@, (count - i) as nat, general),
    {
        let kind = r.u16_le()?;
        let length = r.u16_le()?;
        // The length counts the two fields just read, so a set that claims less than its
        // own header would put the reader back where it started, forever.
        if length < 4 {
            return Err(r.refuse("a capability set length", length as u64));
        }
        let set = r.bytes(length as usize - 4)?;
        if kind == CAPSTYPE_GENERAL {
            let mut inner = Reader::new(WHAT, set);
            let version = inner.u32_le()?;
            let flags = inner.u32_le()?;
            general = (version, flags);
        }
    }
    Ok(general)
}

pub open spec fn header_bytes(kind: u16, flags: u16, length: u32) -> Seq<u8> {
    le16(kind) + le16(flags) + le32(length)
}

pub open spec fn capabilities_bytes() -> Seq<u8> {
    header_bytes(CLIP_CAPS, 0, 16) + (le16(1) + zeros(2) + (le16(CAPSTYPE_GENERAL) + le16(GENERAL_CAPABILITY)
        + (le32(CAPS_VERSION_2) + le32(0))))
}

/// This client's capabilities: one general set, with nothing in it turned on.
///
/// Sent as soon as the server says its clipboard is ready, and before the format list: the
/// flags in here are what decide the shape of every list that follows, so a list sent
/// first would be one neither end had agreed the form of.
pub fn capabilities() -> (pdu: Vec<u8>)
    ensures
        pdu@ == capabilities_bytes(),
{
    let mut w = Writer::with_capacity(24);
    header(&mut w, CLIP_CAPS, 0, 16);
    w.u16_le(1); // one capability set
    w.zeros(2); // pad
    w.u16_le(CAPSTYPE_GENERAL);
    w.u16_le(GENERAL_CAPABILITY);
    w.u32_le(CAPS_VERSION_2);
    // Short format names, no file transfer, no clipboard locking: see the module doc.
    // Every one of those is a PDU pair this client would then owe an answer.
    w.u32_le(0);
    assert(w@ =~= capabilities_bytes());
    w.finish()
}

/// Ids as entries of short names, each empty.
pub open spec fn entries(ids: Seq<u32>) -> Seq<u8>
    decreases ids.len(),
{
    if ids.len() == 0 {
        seq![]
    } else {
        entries(ids.drop_last()) + le32(ids.last()) + zeros(SHORT_NAME - 4)
    }
}

proof fn regroup(a: Seq<u8>, b: Seq<u8>, c: Seq<u8>, d: Seq<u8>)
    ensures
        a + b + c + d == a + (b + c + d),
{
    assert(a + b + c + d =~= a + (b + c + d));
}

pub open spec fn format_list_bytes(ids: Seq<u32>) -> Seq<u8> {
    header_bytes(FORMAT_LIST, 0, (ids.len() * SHORT_NAME) as u32) + entries(ids)
}

/// What this end's clipboard now holds, as format ids.
///
/// An empty list is a real answer, and the one to send before anything has been copied: it
/// says the clipboard is empty, where sending nothing at all would say there is no client
/// here.
pub fn format_list(formats: &[u32]) -> (pdu: Vec<u8>)
    requires
        formats@.len() * SHORT_NAME <= u32::MAX,
    ensures
        pdu@ == format_list_bytes(formats@),
{
    let ghost head = header_bytes(FORMAT_LIST, 0, (formats@.len() * SHORT_NAME) as u32);
    let mut w = Writer::new();
    assert(formats@.len() <= u32::MAX) by (nonlinear_arith)
        requires
            formats@.len() * SHORT_NAME <= u32::MAX,
            SHORT_NAME == 36,
    ;
    header(&mut w, FORMAT_LIST, 0, formats.len() as u32 * SHORT_NAME as u32);
    assert(w@ =~= head + entries(formats@.take(0)));
    for i in 0..formats.len()
        invariant
            w@ == head + entries(formats@.take(i as int)),
    {
        w.u32_le(formats[i]);
        // The name, which for every format this end carries is the empty string: a
        // short name field only names the *private* formats, and CF_UNICODETEXT is one of
        // Windows' own.
        w.zeros(SHORT_NAME - 4);
        proof {
            assert(formats@.take(i + 1).drop_last() =~= formats@.take(i as int));
            regroup(head, entries(formats@.take(i as int)), le32(formats@[i as int]), zeros(SHORT_NAME - 4));
        }
    }
    assert(formats@.take(formats@.len() as int) =~= formats@);
    w.finish()
}

/// The answer a server's format list is owed. Always `CB_RESPONSE_OK`: what arrived was a
/// list of numbers, and there is nothing in one to fail on.
pub fn format_list_response() -> (pdu: Vec<u8>)
    ensures
        pdu@ == header_bytes(FORMAT_LIST_RESPONSE, RESPONSE_OK, 0),
{
    let mut w = Writer::with_capacity(HEADER);
    header(&mut w, FORMAT_LIST_RESPONSE, RESPONSE_OK, 0);
    assert(w@ =~= header_bytes(FORMAT_LIST_RESPONSE, RESPONSE_OK, 0));
    w.finish()
}

/// Ask the remote for the bytes of a format it advertised.
pub fn data_request(format: u32) -> (pdu: Vec<u8>)
    ensures
        pdu@ == header_bytes(FORMAT_DATA_REQUEST, 0, 4) + le32(format),
{
    let mut w = Writer::with_capacity(HEADER + 4);
    header(&mut w, FORMAT_DATA_REQUEST, 0, 4);
    w.u32_le(format);
    assert(w@ =~= header_bytes(FORMAT_DATA_REQUEST, 0, 4) + le32(format));
    w.finish()
}

/// What is answered with: no bytes for a format that cannot be produced.
pub open spec fn answer(data: Option<&[u8]>) -> Seq<u8> {
    match data {
        Some(data) => data@,
        None => seq![],
    }
}

pub open spec fn data_response_bytes(data: Seq<u8>) -> Seq<u8> {
    header_bytes(
        FORMAT_DATA_RESPONSE,
        if data.len() == 0 { 0 } else { RESPONSE_OK },
        data.len() as u32,
    ) + data
}

/// Answer a paste: the bytes, or `None` for the failure that carries none.
///
/// `None` is the answer to a format this end cannot produce, and it is an answer: the
/// remote is blocked in its paste until one arrives.
pub fn data_response(data: Option<&[u8]>) -> (pdu: Vec<u8>)
    requires
        answer(data).len() <= u32::MAX,
    ensures
        pdu@ == data_response_bytes(answer(data)),
{
    let mut w = Writer::new();
    match data {
        Some(data) => {
            // Empty *and* successful is a legal response, but this client only ever
            // produces bytes for text it holds, so an empty one is the refusal.
            let flags: u16 = if data.len() == 0 { 0 } else { RESPONSE_OK };
            header(&mut w, FORMAT_DATA_RESPONSE, flags, data.len() as u32);
            w.bytes(data);
        },
        None => {
            header(&mut w, FORMAT_DATA_RESPONSE, 0, 0);
        },
    }
    assert(w@ =~= data_response_bytes(answer(data)));
    w.finish()
}

/// The eight bytes every PDU on this channel starts with.
pub fn header(w: &mut Writer, kind: u16, flags: u16, length: u32)
    ensures
        final(w)@ == old(w)@ + header_bytes(kind, flags, length),
{
    w.u16_le(kind);
    w.u16_le(flags);
    w.u32_le(length);
    assert(w@ =~= old(w)@ + header_bytes(kind, flags, length));
}

proof fn header_reads_back(kind: u16, flags: u16, length: u32)
    ensures
        header_bytes(kind, flags, length).len() == 8,
        le16_at(header_bytes(kind, flags, length), 0) == kind,
        le16_at(header_bytes(kind, flags, length), 2) == flags,
        le32_at(header_bytes(kind, flags, length), 4) == length,
{
    let bytes = header_bytes(kind, flags, length);
    numbers_read_back(seq![], le16(flags) + le32(length), kind, 0);
    numbers_read_back(le16(kind), le32(length), flags, 0);
    numbers_read_back(le16(kind) + le16(flags), seq![], 0, length);
    assert(seq![] + le16(kind) + (le16(flags) + le32(length)) =~= bytes);
    assert(le16(kind) + le16(flags) + le32(length) + seq![] =~= bytes);
}

/// A PDU that starts with a header and the body it announces says what that body says,
/// whatever padding follows it.
pub proof fn a_pdu_says_what_its_body_says(kind: u16, flags: u16, body: Seq<u8>, padding: Seq<u8>)
    requires
        body.len() <= u32::MAX,
    ensures
        decode_spec(header_bytes(kind, flags, body.len() as u32) + body + padding) == message_spec(
            kind,
            flags,
            body,
        ),
{
    let length = body.len() as u32;
    let pdu = header_bytes(kind, flags, length) + body + padding;
    let head = header_bytes(kind, flags, length);
    header_reads_back(kind, flags, length);
    assert(forall|i: int| 0 <= i < 8 ==> pdu[i] == head[i]);
    assert(pdu.subrange(HEADER as int, HEADER + length) =~= body);
}

proof fn entries_hold_their_ids(ids: Seq<u32>)
    ensures
        entries(ids).len() == ids.len() * SHORT_NAME,
        forall|k: int| 0 <= k < ids.len() ==> #[trigger] le32_at(entries(ids), k * SHORT_NAME) == ids[k],
    decreases ids.len(),
{
    if ids.len() > 0 {
        let before = ids.drop_last();
        entries_hold_their_ids(before);
        numbers_read_back(entries(before), zeros(SHORT_NAME - 4), 0, ids.last());
        assert forall|k: int| 0 <= k < ids.len() implies #[trigger] le32_at(entries(ids), k * SHORT_NAME)
            == ids[k] by {
            if k < before.len() {
                assert(k * SHORT_NAME + SHORT_NAME <= before.len() * SHORT_NAME) by (nonlinear_arith)
                    requires
                        k + 1 <= before.len(),
                ;
                assert(le32_at(entries(before), k * SHORT_NAME) == before[k]);
                assert(k * SHORT_NAME + 4 <= entries(before).len());
            }
        }
    }
}

proof fn short_names_from(ids: Seq<u32>, k: int)
    requires
        0 <= k <= ids.len(),
    ensures
        short_names_spec(cursor(WHAT, entries(ids)).plus(k * SHORT_NAME), ids.take(k)) == Ok::<
            Seq<u32>,
            Malformed,
        >(ids),
    decreases ids.len() - k,
{
    entries_hold_their_ids(ids);
    let c = cursor(WHAT, entries(ids)).plus(k * SHORT_NAME);
    if k == ids.len() {
        assert(ids.take(k) =~= ids);
    } else {
        short_names_from(ids, k + 1);
        assert(le32_at(entries(ids), k * SHORT_NAME) == ids[k]);
        assert(ids.take(k).push(ids[k]) =~= ids.take(k + 1));
        assert((k + 1) * SHORT_NAME == k * SHORT_NAME + SHORT_NAME) by (nonlinear_arith);
        assert(k * SHORT_NAME + SHORT_NAME <= ids.len() * SHORT_NAME) by (nonlinear_arith)
            requires
                k + 1 <= ids.len(),
        ;
        assert(c.plus(4).plus(SHORT_NAME - 4) == cursor(WHAT, entries(ids)).plus((k + 1) * SHORT_NAME));
    }
}

/// What is advertised reads back as the ids that were listed, through the decoder a
/// server's list goes through.
pub proof fn a_format_list_reads_back(ids: Seq<u32>)
    requires
        ids.len() * SHORT_NAME <= u32::MAX,
    ensures
        decode_spec(format_list_bytes(ids)) == Ok::<MessageView, Malformed>(
            MessageView::Formats(entries(ids)),
        ),
        formats_spec(entries(ids)) == Ok::<Seq<u32>, Malformed>(ids),
{
    reveal(message_spec);
    entries_hold_their_ids(ids);
    a_pdu_says_what_its_body_says(FORMAT_LIST, 0, entries(ids), seq![]);
    nothing_added(format_list_bytes(ids));
    short_names_from(ids, 0);
    lemma_mod_multiples_basic(ids.len() as int, SHORT_NAME as int);
    assert(ids.take(0) =~= seq![]);
    assert(cursor(WHAT, entries(ids)).plus(0) == cursor(WHAT, entries(ids)));
}

proof fn nothing_added(s: Seq<u8>)
    ensures
        s + seq![] == s,
{
    assert(s + seq![] =~= s);
}

/// A request names its format to the end that reads it.
pub proof fn a_request_names_its_format(format: u32)
    ensures
        decode_spec(header_bytes(FORMAT_DATA_REQUEST, 0, 4) + le32(format)) == Ok::<
            MessageView,
            Malformed,
        >(MessageView::DataRequest { format }),
{
    a_pdu_says_what_its_body_says(FORMAT_DATA_REQUEST, 0, le32(format), seq![]);
    nothing_added(header_bytes(FORMAT_DATA_REQUEST, 0, 4) + le32(format));
    assert(message_spec(FORMAT_DATA_REQUEST, 0, le32(format)) == Ok::<MessageView, Malformed>(
        MessageView::DataRequest { format },
    )) by {
        reveal(message_spec);
        assert(le32_at(le32(format), 0) == format);
    }
}

/// An answer carries its bytes to the end that asked, and one of no bytes is read as the
/// refusal it is.
pub proof fn an_answer_carries_its_bytes(data: Seq<u8>)
    requires
        data.len() <= u32::MAX,
    ensures
        decode_spec(data_response_bytes(data)) == Ok::<MessageView, Malformed>(
            MessageView::Data(if data.len() == 0 { None } else { Some(data) }),
        ),
{
    let flags = if data.len() == 0 { 0u16 } else { RESPONSE_OK };
    a_pdu_says_what_its_body_says(FORMAT_DATA_RESPONSE, flags, data, seq![]);
    nothing_added(data_response_bytes(data));
    assert(0u16 & 1u16 == 0 && 1u16 & 1u16 == 1) by (bit_vector);
    reveal(message_spec);
}

/// A format as a list with long names carries it: its id, and a name of UTF-16 units that ends with
/// a zero.
pub struct Named {
    pub id: u32,
    pub name: Seq<u16>,
}

pub open spec fn units_bytes(units: Seq<u16>) -> Seq<u8>
    decreases units.len(),
{
    if units.len() == 0 {
        le16(0)
    } else {
        le16(units[0]) + units_bytes(units.skip(1))
    }
}

pub open spec fn named_bytes(list: Seq<Named>) -> Seq<u8>
    decreases list.len(),
{
    if list.len() == 0 {
        seq![]
    } else {
        le32(list[0].id) + (units_bytes(list[0].name) + named_bytes(list.skip(1)))
    }
}

proof fn a_name_is_passed(c: Cursor, units: Seq<u16>, rest: Seq<u8>)
    requires
        forall|i: int| 0 <= i < units.len() ==> #[trigger] units[i] != 0,
        c.faces(units_bytes(units) + rest),
    ensures
        long_name_step(c) == Step::Got((), c.plus(2int * units.len() + 2)),
        c.plus(2int * units.len() + 2).faces(rest),
    decreases units.len(),
{
    if units.len() == 0 {
        word_next(c, 0, rest);
    } else {
        let tail = units.skip(1);
        assert(units_bytes(units) + rest =~= le16(units[0]) + (units_bytes(tail) + rest));
        word_next(c, units[0], units_bytes(tail) + rest);
        assert forall|i: int| 0 <= i < tail.len() implies #[trigger] tail[i] != 0 by {
            assert(tail[i] == units[i + 1]);
        }
        a_name_is_passed(c.plus(2), tail, rest);
        assert(c.plus(2).plus(2int * tail.len() + 2) == c.plus(2int * units.len() + 2));
    }
}

proof fn named_formats_from(c: Cursor, list: Seq<Named>, got: Seq<u32>)
    requires
        forall|i: int, j: int| 0 <= i < list.len() && 0 <= j < list[i].name.len() ==> #[trigger] list[i].name[j] != 0,
        c.faces(named_bytes(list)),
        c.left() == named_bytes(list).len(),
    ensures
        long_names_spec(c, got) == Ok::<Seq<u32>, Malformed>(got + list.map_values(|n: Named| n.id)),
    decreases list.len(),
{
    let ids = list.map_values(|n: Named| n.id);
    if list.len() == 0 {
        assert(got + ids =~= got);
    } else {
        let (first, more) = (list[0], list.skip(1));
        long_next(c, first.id, units_bytes(first.name) + named_bytes(more));
        let after = c.plus(4);
        assert forall|j: int| 0 <= j < first.name.len() implies #[trigger] first.name[j] != 0 by {
            assert(list[0].name[j] != 0);
        }
        a_name_is_passed(after, first.name, named_bytes(more));
        let next = after.plus(2int * first.name.len() + 2);
        units_are_counted(first.name);
        assert forall|i: int, j: int| 0 <= i < more.len() && 0 <= j < more[i].name.len() implies #[trigger]
            more[i].name[j] != 0 by {
            assert(list[i + 1].name[j] != 0);
        }
        named_formats_from(next, more, got.push(first.id));
        assert(got.push(first.id) + more.map_values(|n: Named| n.id) =~= got + ids);
    }
}

proof fn units_are_counted(units: Seq<u16>)
    ensures
        units_bytes(units).len() == 2 * units.len() + 2,
    decreases units.len(),
{
    if units.len() > 0 {
        units_are_counted(units.skip(1));
    }
}

/// A list whose formats have long names gives their ids back in order, unless it is as long as
/// some number of short names would be, which is what it is then read as.
pub proof fn a_list_with_long_names_reads_back(list: Seq<Named>)
    requires
        forall|i: int, j: int| 0 <= i < list.len() && 0 <= j < list[i].name.len() ==> #[trigger] list[i].name[j] != 0,
        named_bytes(list).len() % 36 != 0,
    ensures
        formats_spec(named_bytes(list)) == Ok::<Seq<u32>, Malformed>(list.map_values(|n: Named| n.id)),
{
    let bytes = named_bytes(list);
    front_faces(WHAT, bytes);
    named_formats_from(cursor(WHAT, bytes), list, seq![]);
    let ids = list.map_values(|n: Named| n.id);
    assert(seq![] + ids =~= ids);
}

/// A message is known by its number, and an answer of either kind by its flag for having gone well.
pub proof fn a_message_is_known_by_its_number(flags: u16, body: Seq<u8>)
    ensures
        message_spec(1, flags, body) == Ok::<MessageView, Malformed>(MessageView::MonitorReady),
        message_spec(2, flags, body) == Ok::<MessageView, Malformed>(MessageView::Formats(body)),
        message_spec(3, flags, body) == Ok::<MessageView, Malformed>(
            MessageView::ListResponse { ok: flags as int % 2 == 1 },
        ),
        body.len() >= 4 ==> message_spec(4, flags, body) == Ok::<MessageView, Malformed>(
            MessageView::DataRequest { format: le32_at(body, 0) },
        ),
        message_spec(5, flags, body) == Ok::<MessageView, Malformed>(
            MessageView::Data(if flags as int % 2 == 1 { Some(body) } else { None }),
        ),
{
    reveal(message_spec);
    assert((flags & 1u16 != 0) == (flags % 2 == 1)) by (bit_vector);
}

} // verus!
