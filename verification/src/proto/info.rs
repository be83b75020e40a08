//! The Client Info PDU: who is logging on, and what the session should look like.
//!
//! This is the first PDU of the session proper, and the point at which the connection
//! stops describing itself and starts describing a user. It goes out on the I/O
//! channel as soon as the channels are open, and the server answers it with the
//! licensing PDU of [`super::license`].
//!
//! # Credentials, again
//!
//! The user name and password are in here even though CredSSP has already proved them.
//! That is not a second authentication: the server has the credentials from CredSSP and
//! uses them, and what this PDU adds is `INFO_AUTOLOGON`: *use them* rather than showing
//! a logon screen with the name filled in. A client that omits them reaches the desktop
//! only after someone types the password again.
//!
//! # What the session is told to be
//!
//! Exactly what mstsc tells a server on a LAN: nothing of the desktop is turned off,
//! and font smoothing and desktop composition are turned on. The session looks the
//! way the user set it up to look, and the same as it does from Microsoft's own
//! client. Audio playback and video redirection are refused outright, because this
//! client has nowhere to put them.

use vstd::prelude::*;

use super::share;
use super::wire::{le16, le32, zeros, Writer};
use super::x224::TooLong;
use crate::text::{utf16, utf16_bytes};

verus! {

/// `INFO_*`, the flags that describe the logon:
///
/// - `0x0001` there is a mouse.
/// - `0x0002` no secure attention sequence is needed to log on, which is what makes
///   an automatic logon possible at all.
/// - `0x0008` log on with the credentials in this PDU rather than prompting.
/// - `0x0010` every string in this PDU is UTF-16.
/// - `0x0020` open the shell maximized.
/// - `0x0040` tell the client when the logon has finished.
/// - `0x0100` the Windows key is the remote session's, not the local machine's.
/// - `0x0001_0000` report a failed logon rather than just disconnecting.
/// - `0x0002_0000` the mouse has a wheel.
/// - `0x0040_0000` do not redirect video.
///
/// Bulk compression is deliberately absent. It is a second decompressor on every PDU
/// to save bytes on a link that is a LAN, and a compressed PDU this client cannot
/// unpack is a dead session rather than a slow one.
pub const FLAGS: u32 = 0x0043_017B;

/// `INFO_NOAUDIOPLAYBACK`: do not redirect audio, said only for a target that asked for
/// no sound. With it set the session has no audio device to redirect at all, so a
/// target that did ask leaves it out.
pub const NO_AUDIO: u32 = 0x0008_0000;

/// Both of the above.
pub const FLAGS_NO_AUDIO: u32 = 0x004B_017B;

/// `PERF_ENABLE_FONT_SMOOTHING` and `PERF_ENABLE_DESKTOP_COMPOSITION`, and none of
/// the `PERF_DISABLE_*` flags. Font smoothing is off unless it is asked for, so
/// leaving this zero would not leave the session alone either.
pub const PERFORMANCE: u32 = 0x0000_0180;

/// `clientDir`. The field is meant to be where the client is installed, and a Windows
/// server logs it; mstsc's value is what every server has always been told, and there
/// is nothing truthful to put here instead.
pub const CLIENT_DIR: &'static str = "C:\\Windows\\System32\\mstscax.dll";

/// `AF_INET` and `AF_INET6`, as the field spells them.
pub const ADDRESS_INET: u16 = 0x0002;
pub const ADDRESS_INET6: u16 = 0x0017;

/// `TS_TIME_ZONE_INFORMATION`: a bias, two names of 64 bytes, two transition dates and
/// two more biases. All zero: the session takes the server's own time zone, which is
/// the right answer for a client that may not be where the user is.
pub const TIME_ZONE: usize = 172;

/// The most a PDU measured in sixteen bits can be.
pub const MAX_TOTAL: usize = 0xFFFF;

/// An end of a socket, in the notation of its family.
#[derive(Clone, Copy, Debug, PartialEq, Eq)]
pub enum Address<'a> {
    V4(&'a str),
    V6(&'a str),
}

impl<'a> Address<'a> {
    pub open spec fn spec_text(&self) -> &'a str {
        match self {
            Address::V4(text) => text,
            Address::V6(text) => text,
        }
    }

    pub fn text(&self) -> (text: &'a str)
        ensures
            text == self.spec_text(),
    {
        match self {
            Address::V4(text) => text,
            Address::V6(text) => text,
        }
    }

    pub open spec fn spec_family(&self) -> u16 {
        match self {
            Address::V4(_) => ADDRESS_INET,
            Address::V6(_) => ADDRESS_INET6,
        }
    }

    pub fn family(&self) -> (family: u16)
        ensures
            family == self.spec_family(),
    {
        match self {
            Address::V4(_) => ADDRESS_INET,
            Address::V6(_) => ADDRESS_INET6,
        }
    }
}

/// Who is logging on, and from where.
pub struct ClientInfo<'a> {
    pub username: &'a str,
    pub password: &'a str,
    /// The NetBIOS domain, when the target names one.
    pub domain: Option<&'a str>,
    /// This end of the socket. The server shows it in its own session list and does
    /// nothing else with it: it is not an identity and not a route back.
    pub address: Address<'a>,
    /// Whether the target asked for the remote's sound. Without it the logon says
    /// there is nothing here to play audio, and the host redirects none.
    pub audio: bool,
}

/// A string's length on the wire, which does not count its terminator.
pub open spec fn length(text: Seq<u8>) -> Seq<u8> {
    le16(text.len() as u16)
}

/// A string and its terminator.
pub open spec fn terminated(text: Seq<u8>) -> Seq<u8> {
    text + le16(0)
}

/// A string whose length counts its terminator, because the field is allowed to be
/// absent and a length of zero has to mean something different from an empty string.
pub open spec fn measured(text: Seq<u8>) -> Seq<u8> {
    le16((text.len() + 2) as u16) + terminated(text)
}

impl<'a> ClientInfo<'a> {
    pub open spec fn domain_bytes(&self) -> Seq<u8> {
        match self.domain {
            Some(domain) => utf16(domain@),
            None => seq![],
        }
    }

    pub open spec fn bytes(&self) -> Seq<u8> {
        let domain = self.domain_bytes();
        let username = utf16(self.username@);
        let password = utf16(self.password@);
        // The security header and the code page, which is not used.
        le16(share::INFO_PACKET) + le16(0) + le32(0)
            + le32(if self.audio { FLAGS } else { FLAGS_NO_AUDIO })
            // Five lengths, then the five strings: no alternate shell and no working
            // directory.
            + length(domain) + length(username) + length(password) + length(seq![]) + length(seq![])
            + terminated(domain) + terminated(username) + terminated(password) + terminated(seq![])
            + terminated(seq![])
            + le16(self.address.spec_family()) + measured(utf16(self.address.spec_text()@))
            + measured(utf16(CLIENT_DIR@))
            + zeros(TIME_ZONE as int)
            // Not a reconnection, and what the session looks like.
            + le32(0) + le32(PERFORMANCE)
    }

    /// How long the PDU is.
    pub open spec fn total(&self) -> nat {
        self.domain_bytes().len() + utf16(self.username@).len() + utf16(self.password@).len()
            + utf16(self.address.spec_text()@).len() + utf16(CLIENT_DIR@).len() + 222
    }

    /// The whole PDU, security header and all, ready for an MCS Send Data Request, or
    /// how long it would have been where that does not fit sixteen bits.
    #[verifier::rlimit(60)]
    pub fn encode(&self) -> (res: Result<Vec<u8>, TooLong>)
        requires
            self.total() <= usize::MAX,
        ensures
            match res {
                Ok(pdu) => self.total() <= MAX_TOTAL && pdu@ == self.bytes(),
                Err(e) => self.total() > MAX_TOTAL && e == TooLong(self.total() as usize),
            },
    {
        let domain = match self.domain {
            Some(domain) => utf16_bytes(domain),
            None => Vec::new(),
        };
        let username = utf16_bytes(self.username);
        let password = utf16_bytes(self.password);
        let address = utf16_bytes(self.address.text());
        let directory = utf16_bytes(CLIENT_DIR);

        let total: usize = 4 + 4 + 4 + 5 * 2 + 5 * 2 + domain.len() + username.len() + password.len()
            + 2 + 2 + address.len() + 2 + 2 + directory.len() + 2 + TIME_ZONE + 4 + 4;
        if total > MAX_TOTAL {
            return Err(TooLong(total));
        }
        let mut w = Writer::with_capacity(total);
        share::write_security_header(&mut w, share::INFO_PACKET);
        // The code page is read only when the GCC client core data asked for a
        // keyboard layout of zero, and it did not.
        w.u32_le(0);
        w.u32_le(if self.audio { FLAGS } else { FLAGS_NO_AUDIO });
        w.u16_le(domain.len() as u16);
        w.u16_le(username.len() as u16);
        w.u16_le(password.len() as u16);
        w.u16_le(0);
        w.u16_le(0);
        write_terminated(&mut w, domain.as_slice());
        write_terminated(&mut w, username.as_slice());
        write_terminated(&mut w, password.as_slice());
        write_terminated(&mut w, &[]);
        write_terminated(&mut w, &[]);

        w.u16_le(self.address.family());
        w.u16_le(address.len() as u16 + 2);
        write_terminated(&mut w, address.as_slice());
        w.u16_le(directory.len() as u16 + 2);
        write_terminated(&mut w, directory.as_slice());

        w.zeros(TIME_ZONE);
        // The session identifier is the one being reconnected to, and nothing is.
        w.u32_le(0);
        w.u32_le(PERFORMANCE);
        // The fields after this (an auto-reconnect cookie, and the reserved pair
        // after it) are optional and a server reads them only if they are there.
        assert(w@ =~= self.bytes());
        Ok(w.finish())
    }
}

fn write_terminated(w: &mut Writer, text: &[u8])
    ensures
        final(w)@ == old(w)@ + terminated(text@),
{
    w.bytes(text);
    w.u16_le(0);
    assert(w@ =~= old(w)@ + terminated(text@));
}

/// The PDU is as long as it was measured to be before a byte of it was written.
pub proof fn the_measure_is_the_length(info: &ClientInfo<'_>)
    ensures
        info.bytes().len() == info.total(),
{
}

/// The two ways a logon is flagged differ in the sound and in nothing else.
pub proof fn the_sound_is_one_flag()
    ensures
        FLAGS & NO_AUDIO == 0,
        FLAGS | NO_AUDIO == FLAGS_NO_AUDIO,
{
    assert(0x0043_017Bu32 & 0x0008_0000u32 == 0) by (bit_vector);
    assert(0x0043_017Bu32 | 0x0008_0000u32 == 0x004B_017Bu32) by (bit_vector);
}

/// What comes before the strings of a logon: which PDU this is, what is wanted of the session,
/// and how long the strings are.
pub open spec fn before_strings(flags: u32, domain: u16, username: u16, password: u16) -> Seq<u8> {
    le16(0x0040) + le16(0) + le32(0) + le32(flags) + le16(domain) + le16(username) + le16(password) + le16(0) + le16(0)
}

/// What a logon says behind its three strings: no shell and no directory, where it comes from,
/// and what the session looks like.
pub open spec fn after_strings(info: &ClientInfo<'_>) -> Seq<u8> {
    let from = match info.address {
        Address::V4(text) => utf16(text@),
        Address::V6(text) => utf16(text@),
    };
    let directory = utf16(CLIENT_DIR@);
    le16(0) + le16(0) + le16(0) + (le16(if info.address is V4 { 2 } else { 23 }) + le16((from.len() + 2) as u16) + from
        + le16(0)) + (le16((directory.len() + 2) as u16) + directory + le16(0)) + zeros(172) + le32(0) + le32(0x180)
}

/// A logon carries the domain, the user's name and the password, in that order, each where the
/// lengths before them say, and says which family its address is of.
#[verifier::rlimit(80)]
pub proof fn a_logon_carries_who_is_logging_on(info: &ClientInfo<'_>)
    requires
        info.total() <= 0xFFFF,
    ensures
        ({
            let domain = match info.domain {
                Some(domain) => utf16(domain@),
                None => seq![],
            };
            let (user, password) = (utf16(info.username@), utf16(info.password@));
            info.bytes() == before_strings(
                if info.audio { FLAGS } else { FLAGS_NO_AUDIO },
                domain.len() as u16,
                user.len() as u16,
                password.len() as u16,
            ) + (domain + (le16(0) + (user + (le16(0) + (password + after_strings(info))))))
        }),
{
    let domain = info.domain_bytes();
    let (user, password) = (utf16(info.username@), utf16(info.password@));
    let front = before_strings(
        if info.audio { FLAGS } else { FLAGS_NO_AUDIO },
        domain.len() as u16,
        user.len() as u16,
        password.len() as u16,
    );
    let tail = after_strings(info);
    let text = utf16(info.address.spec_text()@);
    let directory = utf16(CLIENT_DIR@);
    let none = Seq::<u8>::empty();
    assert(front =~= le16(share::INFO_PACKET) + le16(0) + le32(0) + le32(
        if info.audio { FLAGS } else { FLAGS_NO_AUDIO },
    ) + length(domain) + length(user) + length(password) + length(none) + length(none));
    assert(terminated(none) =~= le16(0));
    let end = le16(info.address.spec_family()) + measured(text) + measured(directory) + zeros(TIME_ZONE as int) + le32(0)
        + le32(PERFORMANCE);
    ends_alike(info);
    glued(front, domain, user, password, end);
    assert(info.bytes() =~= front + terminated(domain) + terminated(user) + terminated(password) + le16(0) + le16(0)
        + le16(info.address.spec_family()) + measured(text) + measured(directory) + zeros(TIME_ZONE as int) + le32(0)
        + le32(PERFORMANCE));
    assert(info.bytes() =~= front + terminated(domain) + terminated(user) + terminated(password) + le16(0) + le16(0)
        + end);
}

proof fn ends_alike(info: &ClientInfo<'_>)
    ensures
        after_strings(info) == le16(0) + (le16(0) + (le16(0) + (le16(info.address.spec_family()) + measured(
            utf16(info.address.spec_text()@),
        ) + measured(utf16(CLIENT_DIR@)) + zeros(TIME_ZONE as int) + le32(0) + le32(PERFORMANCE)))),
{
    let text = utf16(info.address.spec_text()@);
    let directory = utf16(CLIENT_DIR@);
    let family = le16(info.address.spec_family());
    assert(le16((text.len() + 2) as u16) + text + le16(0) =~= measured(text));
    assert(le16((directory.len() + 2) as u16) + directory + le16(0) =~= measured(directory));
    assert(family + le16((text.len() + 2) as u16) + text + le16(0) =~= family + measured(text));
    assert(after_strings(info) =~= le16(0) + le16(0) + le16(0) + (family + measured(text)) + measured(directory)
        + zeros(172) + le32(0) + le32(0x180));
    assert(after_strings(info) =~= le16(0) + (le16(0) + (le16(0) + (family + measured(text) + measured(directory)
        + zeros(172) + le32(0) + le32(0x180)))));
}

proof fn glued(front: Seq<u8>, domain: Seq<u8>, user: Seq<u8>, password: Seq<u8>, end: Seq<u8>)
    ensures
        front + terminated(domain) + terminated(user) + terminated(password) + le16(0) + le16(0) + end == front + (
        domain + (le16(0) + (user + (le16(0) + (password + (le16(0) + (le16(0) + (le16(0) + end)))))))),
{
    let z = le16(0);
    assert(front + terminated(domain) + terminated(user) + terminated(password) + z + z + end =~= front + (domain + (z
        + (user + (z + (password + (z + (z + (z + end)))))))));
}

} // verus!
