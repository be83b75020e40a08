//! Device redirection (MS-RDPEFS), with no devices in it.
//!
//! A Windows host redirects no sound for a client that has not also named the `rdpdr`
//! channel, and a session naming `rdpsnd` alone is numbered a channel the host never
//! speaks on. So this is the channel's opening handshake and nothing after it. The server
//! announces itself; the client confirms, gives its name, and answers the capability
//! exchange with the general set alone. With no devices there is no device list to
//! announce and no I/O request will ever arrive.
//!
//! MS-RDPEFS 2.2.2.

use vstd::prelude::*;

use super::wire::{
    bytes_next, cursor, front_faces, le16, le32, long_next, word_next, Cursor, Malformed, Reader, Step, Writer,
};
use crate::text::{utf16, utf16_bytes};

verus! {

pub const WHAT: &'static str = "a device redirection PDU";

/// `RDPDR_CTYP_CORE`: the component every PDU here belongs to.
pub const CORE: u16 = 0x4472;

pub const SERVER_ANNOUNCE: u16 = 0x496E;
pub const CLIENTID_CONFIRM: u16 = 0x4343;
pub const CLIENT_NAME: u16 = 0x434E;
pub const SERVER_CAPABILITY: u16 = 0x5350;
pub const CLIENT_CAPABILITY: u16 = 0x4350;
pub const USER_LOGGEDON: u16 = 0x554C;

/// The protocol this client speaks: major 1, minor 13, RDP 10's, or the server's if
/// lower.
pub const VERSION_MAJOR: u16 = 0x0001;
pub const VERSION_MINOR: u16 = 0x000D;

pub const CAP_GENERAL: u16 = 0x0001;
pub const GENERAL_VERSION_2: u32 = 0x0000_0002;
/// A general capability set: the eight-byte header and thirty-six of fields.
pub const GENERAL_LENGTH: u16 = 8 + 36;
/// Every `RDPDR_IRP_MJ_*` request: moot with no device to send one to, but what a client
/// of this version says.
pub const IO_CODES: u32 = 0x0000_FFFF;
/// `RDPDR_DEVICE_REMOVE_PDUS | RDPDR_CLIENT_DISPLAY_NAME_PDU | RDPDR_USER_LOGGEDON_PDU`.
pub const EXTENDED_PDUS: u32 = 0x0000_0007;
pub const ENABLE_ASYNCIO: u32 = 0x0000_0001;

/// What this end calls itself in the Client Name Request. Shown nowhere a person looks,
/// since nothing is redirected under it.
pub const COMPUTER_NAME: &'static str = "remotex";

/// The client's side of the handshake.
#[derive(Clone, Copy, Debug, PartialEq, Eq)]
pub struct Rdpdr {
    /// The version agreed with the server, once it has announced its own.
    pub version: Option<(u16, u16)>,
    /// The number the server knows this client by.
    pub client_id: u32,
}

/// Replies by their contents.
pub open spec fn contents(replies: Seq<Vec<u8>>) -> Seq<Seq<u8>> {
    Seq::new(replies.len(), |i: int| replies[i]@)
}

pub open spec fn lower(a: u16, b: u16) -> u16 {
    if a < b { a } else { b }
}

pub open spec fn clientid_confirm_bytes(version: (u16, u16), client_id: u32) -> Seq<u8> {
    le16(CORE) + le16(CLIENTID_CONFIRM) + le16(version.0) + le16(version.1) + le32(client_id)
}

/// The name in UTF-16 with its terminator.
pub open spec fn name_bytes() -> Seq<u8> {
    utf16(COMPUTER_NAME@) + le16(0)
}

pub open spec fn client_name_bytes() -> Seq<u8> {
    le16(CORE) + le16(CLIENT_NAME) + le32(1) + le32(0) + le32(name_bytes().len() as u32) + name_bytes()
}

pub open spec fn client_capability_bytes(version: (u16, u16), io_codes: u32) -> Seq<u8> {
    le16(CORE) + le16(CLIENT_CAPABILITY) + le16(1) + le16(0) + le16(CAP_GENERAL) + le16(GENERAL_LENGTH)
        + le32(GENERAL_VERSION_2) + le32(0) + le32(0) + le16(version.0) + le16(version.1) + le32(
        io_codes,
    ) + le32(0) + le32(EXTENDED_PDUS) + le32(ENABLE_ASYNCIO) + le32(0) + le32(0)
}

/// The `ioCode1` of a general capability set's body.
pub open spec fn general_spec(body: Seq<u8>) -> Result<u32, Malformed> {
    match cursor(WHAT, body).u32_le() {
        Step::Stop(e) => Err(e),
        Step::Got(_, c) => match c.u32_le() {
            Step::Stop(e) => Err(e),
            Step::Got(_, c) => match c.u16_le() {
                Step::Stop(e) => Err(e),
                Step::Got(_, c) => match c.u16_le() {
                    Step::Stop(e) => Err(e),
                    Step::Got(_, c) => match c.u32_le() {
                        Step::Stop(e) => Err(e),
                        Step::Got(codes, _) => Ok(codes),
                    },
                },
            },
        },
    }
}

/// One capability set: what it leaves of the I/O codes.
pub open spec fn capability_step(c: Cursor, codes: u32) -> Step<u32> {
    match c.u16_le() {
        Step::Stop(e) => Step::Stop(e),
        Step::Got(kind, c) => match c.u16_le() {
            Step::Stop(e) => Step::Stop(e),
            Step::Got(length, c) => match c.u32_le() {
                Step::Stop(e) => Step::Stop(e),
                Step::Got(_, c) => if length < 8 {
                    Step::Stop(c.refused("a capability length", length as u64))
                } else {
                    match c.bytes(length - 8) {
                        Step::Stop(e) => Step::Stop(e),
                        Step::Got(body, c) => if kind == CAP_GENERAL {
                            match general_spec(body) {
                                Err(e) => Step::Stop(e),
                                Ok(theirs) => Step::Got(codes & theirs, c),
                            }
                        } else {
                            Step::Got(codes, c)
                        },
                    }
                },
            },
        },
    }
}

/// What `n` more capability sets leave of the I/O codes.
pub open spec fn capabilities_spec(c: Cursor, n: nat, codes: u32) -> Result<u32, Malformed>
    decreases n,
{
    if n == 0 {
        Ok(codes)
    } else {
        match capability_step(c, codes) {
            Step::Stop(e) => Err(e),
            Step::Got(codes, c) => capabilities_spec(c, (n - 1) as nat, codes),
        }
    }
}

/// A version and a client id.
pub open spec fn announce_step(c: Cursor) -> Step<(u16, u16, u32)> {
    match c.u16_le() {
        Step::Stop(e) => Step::Stop(e),
        Step::Got(major, c) => match c.u16_le() {
            Step::Stop(e) => Step::Stop(e),
            Step::Got(minor, c) => match c.u32_le() {
                Step::Stop(e) => Step::Stop(e),
                Step::Got(id, c) => Step::Got((major, minor, id), c),
            },
        },
    }
}

/// What a PDU of the core component does, past its header.
pub open spec fn packet_spec(s: Rdpdr, packet: u16, c: Cursor) -> (Rdpdr, Result<Seq<Seq<u8>>, Malformed>) {
    if packet == SERVER_ANNOUNCE {
        match announce_step(c) {
            Step::Stop(e) => (s, Err(e)),
            Step::Got((major, minor, client_id), _) => {
                let version = (lower(major, VERSION_MAJOR), lower(minor, VERSION_MINOR));
                (
                    Rdpdr { version: Some(version), client_id },
                    Ok(seq![clientid_confirm_bytes(version, client_id), client_name_bytes()]),
                )
            },
        }
    } else if packet == SERVER_CAPABILITY {
        match c.u16_le() {
            Step::Stop(e) => (s, Err(e)),
            Step::Got(count, c) => match c.u16_le() {
                Step::Stop(e) => (s, Err(e)),
                Step::Got(_, c) => match capabilities_spec(c, count as nat, IO_CODES) {
                    Err(e) => (s, Err(e)),
                    Ok(io_codes) => {
                        let version = match s.version {
                            Some(version) => version,
                            None => (VERSION_MAJOR, VERSION_MINOR),
                        };
                        (s, Ok(seq![client_capability_bytes(version, io_codes)]))
                    },
                },
            },
        }
    } else if packet == CLIENTID_CONFIRM {
        match announce_step(c) {
            Step::Stop(e) => (s, Err(e)),
            Step::Got((major, minor, client_id), _) => (
                Rdpdr { version: Some((major, minor)), client_id },
                Ok(seq![]),
            ),
        }
    } else {
        (s, Ok(seq![]))
    }
}

/// What one whole PDU from the server does, and what is sent back for it.
pub open spec fn push_spec(s: Rdpdr, pdu: Seq<u8>) -> (Rdpdr, Result<Seq<Seq<u8>>, Malformed>) {
    match cursor(WHAT, pdu).u16_le() {
        Step::Stop(e) => (s, Err(e)),
        Step::Got(component, c) => match c.u16_le() {
            Step::Stop(e) => (s, Err(e)),
            Step::Got(packet, c) => if component != CORE {
                (s, Ok(seq![]))
            } else {
                packet_spec(s, packet, c)
            },
        },
    }
}

impl Rdpdr {
    pub fn new() -> (r: Rdpdr)
        ensures
            r == (Rdpdr { version: None, client_id: 0 }),
    {
        Rdpdr { version: None, client_id: 0 }
    }

    /// One whole PDU from the server: what to send back, in order.
    pub fn push(&mut self, pdu: &[u8]) -> (res: Result<Vec<Vec<u8>>, Malformed>)
        ensures
            *final(self) == push_spec(*old(self), pdu@).0,
            match push_spec(*old(self), pdu@).1 {
                Ok(replies) => res matches Ok(got) && contents(got@) == replies,
                Err(e) => res == Err::<Vec<Vec<u8>>, Malformed>(e),
            },
    {
        let mut r = Reader::new(WHAT, pdu);
        let component = r.u16_le()?;
        let packet = r.u16_le()?;
        let mut replies: Vec<Vec<u8>> = Vec::new();
        assert(contents(replies@) =~= seq![]);
        if component != CORE {
            return Ok(replies);
        }
        match packet {
            SERVER_ANNOUNCE => {
                let (major, minor, client_id) = announce(&mut r)?;
                let version: (u16, u16) = (
                    if major < VERSION_MAJOR { major } else { VERSION_MAJOR },
                    if minor < VERSION_MINOR { minor } else { VERSION_MINOR },
                );
                self.client_id = client_id;
                self.version = Some(version);
                replies.push(clientid_confirm(version, client_id));
                replies.push(client_name());
                assert(contents(replies@) =~= seq![
                    clientid_confirm_bytes(version, client_id),
                    client_name_bytes(),
                ]);
            },
            SERVER_CAPABILITY => {
                let count = r.u16_le()?;
                r.u16_le()?; // Padding
                let io_codes = shared_codes(&mut r, count)?;
                let version: (u16, u16) = match self.version {
                    Some(version) => version,
                    None => (VERSION_MAJOR, VERSION_MINOR),
                };
                replies.push(client_capability(version, io_codes));
                assert(contents(replies@) =~= seq![client_capability_bytes(version, io_codes)]);
            },
            CLIENTID_CONFIRM => {
                let (major, minor, client_id) = announce(&mut r)?;
                self.client_id = client_id;
                // With no devices there is no list to announce, so the handshake ends
                // here.
                self.version = Some((major, minor));
            },
            _ => {},
        }
        Ok(replies)
    }
}

fn announce(r: &mut Reader<'_>) -> (res: Result<(u16, u16, u32), Malformed>)
    ensures
        match announce_step(old(r)@) {
            Step::Got(x, _) => res == Ok::<(u16, u16, u32), Malformed>(x),
            Step::Stop(e) => res == Err::<(u16, u16, u32), Malformed>(e),
        },
{
    let major = r.u16_le()?;
    let minor = r.u16_le()?;
    let id = r.u32_le()?;
    Ok((major, minor, id))
}

/// The I/O codes both ends have.
fn shared_codes(r: &mut Reader<'_>, count: u16) -> (res: Result<u32, Malformed>)
    ensures
        res == capabilities_spec(old(r)@, count as nat, IO_CODES),
{
    let mut codes: u32 = IO_CODES;
    for i in 0..count
        invariant
            capabilities_spec(old(r)@, count as nat, IO_CODES) == capabilities_spec(
                r@,
                (count - i) as nat,
                codes,
            ),
    {
        let kind = r.u16_le()?;
        let length = r.u16_le()?;
        r.u32_le()?; // version
        if length < 8 {
            return Err(r.refuse("a capability length", length as u64));
        }
        let body = r.bytes(length as usize - 8)?;
        if kind == CAP_GENERAL {
            codes = codes & general(body)?;
        }
    }
    Ok(codes)
}

fn general(body: &[u8]) -> (res: Result<u32, Malformed>)
    ensures
        res == general_spec(body@),
{
    let mut r = Reader::new(WHAT, body);
    r.u32_le()?; // osType
    r.u32_le()?; // osVersion
    r.u16_le()?; // protocolMajorVersion
    r.u16_le()?; // protocolMinorVersion
    r.u32_le()
}

fn clientid_confirm(version: (u16, u16), client_id: u32) -> (bytes: Vec<u8>)
    ensures
        bytes@ == clientid_confirm_bytes(version, client_id),
{
    let mut w = Writer::with_capacity(12);
    w.u16_le(CORE);
    w.u16_le(CLIENTID_CONFIRM);
    w.u16_le(version.0);
    w.u16_le(version.1);
    w.u32_le(client_id);
    assert(w@ =~= clientid_confirm_bytes(version, client_id));
    w.finish()
}

/// Client Name Request: this end's name, UTF-16 with its terminator.
fn client_name() -> (bytes: Vec<u8>)
    ensures
        bytes@ == client_name_bytes(),
{
    let mut name = utf16_bytes(COMPUTER_NAME);
    name.push(0);
    name.push(0);
    assert(name@ =~= name_bytes());
    let mut w = Writer::new();
    w.u16_le(CORE);
    w.u16_le(CLIENT_NAME);
    w.u32_le(1); // UnicodeFlag
    w.u32_le(0); // CodePage
    w.u32_le(name.len() as u32);
    w.bytes(name.as_slice());
    assert(w@ =~= client_name_bytes());
    w.finish()
}

/// Client Core Capability Response: the general capability set, and no other, since there
/// is no device type here to describe.
fn client_capability(version: (u16, u16), io_codes: u32) -> (bytes: Vec<u8>)
    ensures
        bytes@ == client_capability_bytes(version, io_codes),
{
    let mut w = Writer::with_capacity(52);
    w.u16_le(CORE);
    w.u16_le(CLIENT_CAPABILITY);
    w.u16_le(1); // numCapabilities
    w.u16_le(0); // Padding
    w.u16_le(CAP_GENERAL);
    w.u16_le(GENERAL_LENGTH);
    w.u32_le(GENERAL_VERSION_2);
    w.u32_le(0); // osType, ignored on receipt
    w.u32_le(0); // osVersion, must be zero
    w.u16_le(version.0);
    w.u16_le(version.1);
    w.u32_le(io_codes);
    w.u32_le(0); // ioCode2, must be zero
    w.u32_le(EXTENDED_PDUS);
    w.u32_le(ENABLE_ASYNCIO);
    w.u32_le(0); // extraFlags2, must be zero
    w.u32_le(0); // SpecialTypeDeviceCap: no special devices before logon
    assert(w@ =~= client_capability_bytes(version, io_codes));
    w.finish()
}

/// The version agreed is never above either end's own, and is one of the two.
pub proof fn the_lower_version_is_agreed(s: Rdpdr, c: Cursor)
    requires
        announce_step(c) is Got,
    ensures
        ({
            let (major, minor, _) = announce_step(c)->Got_0;
            let agreed = packet_spec(s, SERVER_ANNOUNCE, c).0.version->0;
            &&& agreed.0 <= major && agreed.0 <= VERSION_MAJOR
            &&& agreed.1 <= minor && agreed.1 <= VERSION_MINOR
            &&& agreed.0 == major || agreed.0 == VERSION_MAJOR
            &&& agreed.1 == minor || agreed.1 == VERSION_MINOR
        }),
{
}

/// No I/O code is claimed that this end does not have, whatever the server's sets say.
pub proof fn no_code_is_claimed_that_is_not_there(c: Cursor, n: nat, codes: u32)
    requires
        codes & !IO_CODES == 0,
    ensures
        capabilities_spec(c, n, codes) matches Ok(left) ==> left & !IO_CODES == 0,
    decreases n,
{
    if n > 0 {
        match capability_step(c, codes) {
            Step::Stop(_) => {},
            Step::Got(left, next) => {
                assert forall|theirs: u32| #[trigger] (codes & theirs) & !0xFFFFu32 == 0 by {
                    assert((codes & theirs) & !0xFFFFu32 == 0) by (bit_vector)
                        requires
                            codes & !0xFFFFu32 == 0,
                    ;
                }
                no_code_is_claimed_that_is_not_there(next, (n - 1) as nat, left);
            },
        }
    }
}

/// A server that announces itself is answered with its own id, and the lower of each half of
/// its version and of 1.13; and both are kept.
pub proof fn an_announcement_is_answered(s: Rdpdr, major: u16, minor: u16, id: u32)
    ensures
        ({
            let (after, res) = push_spec(
                s,
                le16(0x4472) + (le16(0x496E) + (le16(major) + (le16(minor) + le32(id)))),
            );
            let version = (if major < 1 { major } else { 1 }, if minor < 13 { minor } else { 13 });
            &&& after.version == Some(version) && after.client_id == id
            &&& res matches Ok(replies) && replies.len() == 2 && replies[0] == le16(0x4472) + (le16(0x4343) + (le16(
                version.0,
            ) + (le16(version.1) + le32(id))))
        }),
{
    let pdu = le16(0x4472) + (le16(0x496E) + (le16(major) + (le16(minor) + le32(id))));
    let c = cursor(WHAT, pdu).plus(2).plus(2);
    assert(push_spec(s, pdu) == packet_spec(s, 0x496E, c) && announce_step(c) is Got && announce_step(c)->Got_0 == (
        major,
        minor,
        id,
    )) by {
        front_faces(WHAT, pdu);
        an_announcement_is_read(cursor(WHAT, pdu), major, minor, id);
    }
    let version = (lower(major, 1), lower(minor, 13));
    a_confirmation_is_sent(version, id);
}

proof fn a_confirmation_is_sent(version: (u16, u16), id: u32)
    ensures
        clientid_confirm_bytes(version, id) == le16(0x4472) + (le16(0x4343) + (le16(version.0) + (le16(version.1)
            + le32(id)))),
{
    assert(clientid_confirm_bytes(version, id) =~= le16(0x4472) + (le16(0x4343) + (le16(version.0) + (le16(version.1)
        + le32(id)))));
}

proof fn an_announcement_is_read(c: Cursor, major: u16, minor: u16, id: u32)
    requires
        c.faces(le16(0x4472) + (le16(0x496E) + (le16(major) + (le16(minor) + le32(id))))),
    ensures
        c.u16_le() == Step::Got(0x4472u16, c.plus(2)),
        c.plus(2).u16_le() == Step::Got(0x496Eu16, c.plus(2).plus(2)),
        announce_step(c.plus(2).plus(2)) matches Step::Got(got, _) && got == (major, minor, id),
{
    word_next(c, 0x4472, le16(0x496E) + (le16(major) + (le16(minor) + le32(id))));
    let c1 = c.plus(2);
    word_next(c1, 0x496E, le16(major) + (le16(minor) + le32(id)));
    let c2 = c1.plus(2);
    word_next(c2, major, le16(minor) + le32(id));
    let c3 = c2.plus(2);
    word_next(c3, minor, le32(id));
    assert(le32(id) + seq![] =~= le32(id));
    long_next(c3.plus(2), id, seq![]);
}

/// A capability set as a server sends it: its kind, how long it is, its version, and what it
/// says.
pub open spec fn set_bytes(kind: u16, version: u32, body: Seq<u8>) -> Seq<u8> {
    le16(kind) + (le16((8 + body.len()) as u16) + (le32(version) + body))
}

/// What a server's general set says: of what system it is, of which version, and of the I/O
/// codes it has.
pub open spec fn general_bytes(system: u32, release: u32, major: u16, minor: u16, codes: u32, more: Seq<u8>) -> Seq<u8> {
    le32(system) + (le32(release) + (le16(major) + (le16(minor) + (le32(codes) + more))))
}

proof fn general_reads_back(c: Cursor, system: u32, release: u32, major: u16, minor: u16, codes: u32, more: Seq<u8>)
    requires
        c.faces(general_bytes(system, release, major, minor, codes, more)),
    ensures
        c.u32_le() == Step::Got(system, c.plus(4)),
        c.plus(4).u32_le() == Step::Got(release, c.plus(4).plus(4)),
        c.plus(4).plus(4).u16_le() == Step::Got(major, c.plus(4).plus(4).plus(2)),
        c.plus(4).plus(4).plus(2).u16_le() == Step::Got(minor, c.plus(4).plus(4).plus(2).plus(2)),
        c.plus(4).plus(4).plus(2).plus(2).u32_le() == Step::Got(codes, c.plus(4).plus(4).plus(2).plus(2).plus(4)),
{
    let s4 = le32(codes) + more;
    let s3 = le16(minor) + s4;
    let s2 = le16(major) + s3;
    let s1 = le32(release) + s2;
    long_next(c, system, s1);
    let c1 = c.plus(4);
    long_next(c1, release, s2);
    let c2 = c1.plus(4);
    word_next(c2, major, s3);
    let c3 = c2.plus(2);
    word_next(c3, minor, s4);
    long_next(c3.plus(2), codes, more);
}

/// A general set leaves of the codes those the server has too; any other set leaves them; and
/// what follows the set comes next.
pub proof fn a_set_leaves_what_both_have(
    c: Cursor,
    kind: u16,
    version: u32,
    system: u32,
    release: u32,
    major: u16,
    minor: u16,
    theirs: u32,
    more: Seq<u8>,
    rest: Seq<u8>,
    codes: u32,
)
    requires
        24 + more.len() <= 0xFFFF,
        c.faces(set_bytes(kind, version, general_bytes(system, release, major, minor, theirs, more)) + rest),
    ensures
        match capability_step(c, codes) {
            Step::Stop(_) => false,
            Step::Got(left, next) => left == (if kind == 1 { codes & theirs } else { codes }) && next.faces(rest),
        },
{
    let body = general_bytes(system, release, major, minor, theirs, more);
    assert(body.len() == 16 + more.len());
    let length = (8 + body.len()) as u16;
    a_set_is_next(c, kind, length, version, body, rest);
    front_faces(WHAT, body);
    general_reads_back(cursor(WHAT, body), system, release, major, minor, theirs, more);
    assert(general_spec(body) == Ok::<u32, Malformed>(theirs));
}

proof fn a_set_is_next(c: Cursor, kind: u16, length: u16, version: u32, body: Seq<u8>, rest: Seq<u8>)
    requires
        length == 8 + body.len(),
        c.faces(set_bytes(kind, version, body) + rest),
    ensures
        c.u16_le() == Step::Got(kind, c.plus(2)),
        c.plus(2).u16_le() == Step::Got(length, c.plus(2).plus(2)),
        c.plus(2).plus(2).u32_le() == Step::Got(version, c.plus(2).plus(2).plus(4)),
        c.plus(2).plus(2).plus(4).bytes(length - 8) == Step::Got(body, c.plus(2).plus(2).plus(4).plus(length - 8)),
        c.plus(2).plus(2).plus(4).plus(length - 8).faces(rest),
{
    let s3 = body + rest;
    let s2 = le32(version) + s3;
    let s1 = le16(length) + s2;
    assert(set_bytes(kind, version, body) + rest =~= le16(kind) + s1);
    word_next(c, kind, s1);
    word_next(c.plus(2), length, s2);
    long_next(c.plus(2).plus(2), version, s3);
    bytes_next(c.plus(2).plus(2).plus(4), body, rest);
}

} // verus!
