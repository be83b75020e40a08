//! Proving who we are, before the server builds a session.
//!
//! Network Level Authentication means the credentials are checked before anything else:
//! inside the TLS session, and before the first MCS PDU. A current Windows host requires
//! it, and this client offers nothing else, so every connection passes
//! through this.
//!
//! The exchange is CredSSP (MS-CSSP): a handful of DER-encoded `TSRequest` messages
//! carrying NTLM tokens, then the server's public key signed by the session key, then the
//! credentials themselves. `sspi` does that. What this module owns is the part that
//! belongs to RDP rather than to the mechanism: taking one `TSRequest` at a time off a TLS
//! stream that has no framing of its own ([`Answer`]), handing each to the mechanism and
//! its reply back ([`Logon`]), and turning a refusal into a sentence a person can act on.
//!
//! # NTLM, not Kerberos
//!
//! A target here is a user name and a password, which is what NTLM takes. Kerberos would
//! need a ticket from a KDC: a second network dependency, for a domain this end may not be
//! joined to. `mstsc` sends plain NTLM inside CredSSP whenever Kerberos is not available,
//! so servers expect it.

use sspi::credssp::{ClientMode, ClientState, CredSspClient, CredSspMode, NStatusCode, TsRequest};
use sspi::{AuthIdentity, Error as SspiError, Username};
use vstd::prelude::*;

use crate::text::{decimal, push_decimal, utf16, utf16_bytes};

verus! {

/// The most bytes it can take to learn the length: the outer tag, and the longest length
/// encoding that can follow it. Reading further than the length says would swallow bytes
/// belonging to the next PDU.
pub const HEADER: usize = 6;

/// Who to log on as.
#[derive(Clone, Copy)]
pub struct Credentials<'a> {
    pub username: &'a str,
    pub password: &'a str,
    /// The NetBIOS domain, when the target names one. A user name already written
    /// `DOMAIN\user` or `user@realm` carries its own and needs nothing here.
    pub domain: Option<&'a str>,
}

/// Why the logon came to nothing.
#[derive(Clone, Debug, PartialEq, Eq)]
pub enum LogonError {
    /// What was to be logged on as is not a user name.
    NotAUserName { username: String, cause: String },
    /// The mechanism could not be started.
    Starting { cause: String },
    /// The logon attempt was refused.
    Refused { cause: String },
    /// A request could not be encoded.
    Encoding,
    /// The server closed the connection after this many bytes of an answer.
    Closed { after: usize },
    /// The server's answer is not a CredSSP response.
    NotCredssp { cause: String },
    /// An answer announced fewer bytes than its own header.
    Short { announced: usize },
    /// An answer could not be decoded.
    Decoding { cause: String },
}

/// A text as it is quoted: what the `Debug` of `str` writes.
pub uninterp spec fn quoted_text(text: Seq<char>) -> Seq<char>;

/// The `Debug` of `str`: the text in quotes, with what would not show in it escaped. It is
/// the text's alone.
#[verifier::external_body]
fn quoted(text: &str) -> (s: String)
    ensures
        s@ == quoted_text(text@),
{
    format!("{text:?}")
}

impl LogonError {
    pub open spec fn text(self) -> Seq<char> {
        match self {
            LogonError::NotAUserName { username, cause } => quoted_text(username@)
                + " is not a user name: "@ + cause@,
            LogonError::Starting { cause } => "starting CredSSP: "@ + cause@,
            LogonError::Refused { cause } => "the logon attempt was refused: "@ + cause@,
            LogonError::Encoding => "encoding a CredSSP request"@,
            LogonError::Closed { after } =>
                "the server closed the connection during the logon attempt, after "@ + decimal(
                after as nat,
            ) + " bytes"@,
            LogonError::NotCredssp { cause } => "the server's answer is not a CredSSP response: "@ + cause@,
            LogonError::Short { announced } => "a CredSSP response announced "@ + decimal(
                announced as nat,
            ) + " bytes, fewer than its own header"@,
            LogonError::Decoding { cause } => "decoding a CredSSP response: "@ + cause@,
        }
    }

    /// The error in words.
    pub fn to_string(&self) -> (s: String)
        ensures
            s@ == self.text(),
    {
        let mut s = String::new();
        match self {
            LogonError::NotAUserName { username, cause } => {
                s.append(quoted(username.as_str()).as_str());
                s.append(" is not a user name: ");
                s.append(cause.as_str());
            },
            LogonError::Starting { cause } => {
                s.append("starting CredSSP: ");
                s.append(cause.as_str());
            },
            LogonError::Refused { cause } => {
                s.append("the logon attempt was refused: ");
                s.append(cause.as_str());
            },
            LogonError::Encoding => s.append("encoding a CredSSP request"),
            LogonError::Closed { after } => {
                s.append("the server closed the connection during the logon attempt, after ");
                push_decimal(&mut s, *after as u64);
                s.append(" bytes");
            },
            LogonError::NotCredssp { cause } => {
                s.append("the server's answer is not a CredSSP response: ");
                s.append(cause.as_str());
            },
            LogonError::Short { announced } => {
                s.append("a CredSSP response announced ");
                push_decimal(&mut s, *announced as u64);
                s.append(" bytes, fewer than its own header");
            },
            LogonError::Decoding { cause } => {
                s.append("decoding a CredSSP response: ");
                s.append(cause.as_str());
            },
        }
        assert(s@ =~= self.text());
        s
    }
}

/// The length in the DER header of a sequence: in one byte, or in the one or two bytes
/// after a byte that says how many.
pub open spec fn sequence_length(bytes: Seq<u8>) -> Option<int> {
    if bytes.len() < 2 || bytes[0] != 0x30 {
        None
    } else if bytes[1] < 0x80 {
        Some(bytes[1] as int)
    } else if bytes[1] == 0x81 && bytes.len() >= 3 {
        Some(bytes[2] as int)
    } else if bytes[1] == 0x82 && bytes.len() >= 4 && bytes[2] * 0x100 + bytes[3] <= 0xFFFB {
        Some(bytes[2] * 0x100 + bytes[3])
    } else {
        None
    }
}

/// How long a `TSRequest` that starts with these bytes is, header and all, the header
/// being as long as a length of that size needs: nothing, where they do not say yet, or
/// start no `TSRequest`.
pub open spec fn announced(bytes: Seq<u8>) -> Option<usize> {
    match sequence_length(bytes) {
        None => None,
        Some(length) => Some(
            (1 + length + if length > 0xFF {
                3int
            } else if length > 0x7F {
                2
            } else {
                1
            }) as usize,
        ),
    }
}

/// Why bytes announce no length: the words of the error of `TsRequest::read_length`.
pub uninterp spec fn length_fault(bytes: Seq<u8>) -> Seq<char>;

/// `TsRequest::read_length`: the length a DER header announces, header included. It reads
/// the tag of a sequence and a length of up to two bytes, and fails on anything else, on a
/// header that is cut short, and on a length the whole of which would not fit 16 bits, in
/// words that the bytes alone decide.
#[verifier::external_body]
fn read_length(bytes: &[u8]) -> (length: Result<usize, String>)
    ensures
        match length {
            Ok(length) => announced(bytes@) == Some(length),
            Err(cause) => announced(bytes@) is None && cause@ == length_fault(bytes@),
        },
{
    TsRequest::read_length(bytes).map_err(|e| e.to_string())
}

/// One `TSRequest` on its way in.
///
/// TLS delivers a byte stream, and a `TSRequest` is self-delimiting only in the sense that
/// its DER header says how long it is, so the length has to be discovered from a prefix
/// and the rest read against it, rather than by reading "a message".
pub struct Answer {
    /// What has been read of it.
    pub bytes: Vec<u8>,
}

/// What to read next.
#[derive(Clone, Copy, Debug, PartialEq, Eq)]
pub enum Reading {
    /// One more byte: until the header is complete there is no way to know how much of the
    /// stream this message owns.
    Byte,
    /// This many bytes, which are the rest of it.
    Rest(usize),
}

/// Whether this is what is read next, once these are the bytes that have been.
pub open spec fn reads_next(bytes: Seq<u8>, next: Result<Reading, LogonError>) -> bool {
    match announced(bytes) {
        Some(length) => next == (if length < bytes.len() {
            Err::<Reading, LogonError>(LogonError::Short { announced: length })
        } else {
            Ok::<Reading, LogonError>(Reading::Rest((length - bytes.len()) as usize))
        }),
        // Anything that cannot be read is an early end of input, so the byte count is what
        // separates "more to come" from "this is not a TSRequest at all".
        None => if bytes.len() < HEADER {
            next == Ok::<Reading, LogonError>(Reading::Byte)
        } else {
            next matches Err(LogonError::NotCredssp { cause }) && cause@ == length_fault(bytes)
        },
    }
}

impl Answer {
    pub fn new() -> (answer: Answer)
        ensures
            answer.bytes@ == Seq::<u8>::empty(),
    {
        Answer { bytes: Vec::new() }
    }

    /// One byte of it: what to read next.
    pub fn push(&mut self, byte: u8) -> (res: Result<Reading, LogonError>)
        ensures
            final(self).bytes@ == old(self).bytes@.push(byte),
            reads_next(old(self).bytes@.push(byte), res),
    {
        self.bytes.push(byte);
        match read_length(self.bytes.as_slice()) {
            Ok(length) => if length < self.bytes.len() {
                Err(LogonError::Short { announced: length })
            } else {
                Ok(Reading::Rest(length - self.bytes.len()))
            },
            Err(cause) => if self.bytes.len() < HEADER {
                Ok(Reading::Byte)
            } else {
                Err(LogonError::NotCredssp { cause })
            },
        }
    }

    /// The connection ended before the rest of it.
    pub fn cut_short(&self) -> (e: LogonError)
        ensures
            e == (LogonError::Closed { after: self.bytes@.len() as usize }),
    {
        LogonError::Closed { after: self.bytes.len() }
    }
}

/// No byte past the announced length is ever asked for: what has been read and what is
/// still to be read come to the length the message announces.
pub proof fn nothing_past_the_message_is_read(bytes: Seq<u8>, next: Result<Reading, LogonError>)
    requires
        reads_next(bytes, next),
    ensures
        match next {
            Ok(Reading::Rest(rest)) => announced(bytes) == Some((bytes.len() + rest) as usize),
            Ok(Reading::Byte) => announced(bytes) is None && bytes.len() < HEADER,
            Err(_) => true,
        },
{
}

/// The length is discovered by the fourth byte, and no later byte changes it.
pub proof fn the_length_is_in_the_first_four_bytes(bytes: Seq<u8>, more: Seq<u8>)
    requires
        bytes.len() >= 4,
    ensures
        announced(bytes + more) == announced(bytes),
{
    assert forall|i: int| 0 <= i < 4 implies (bytes + more)[i] == bytes[i] by {}
}

/// One message of the exchange: a `TSRequest` (MS-CSSP 2.2.1).
pub struct Request {
    pub version: u32,
    /// The NTLM token.
    pub nego_tokens: Option<Vec<u8>>,
    /// The credentials, sealed.
    pub auth_info: Option<Vec<u8>>,
    /// The proof that both ends see the same public key, sealed.
    pub pub_key_auth: Option<Vec<u8>>,
    /// Why the server refuses.
    pub error_code: Option<u32>,
    pub client_nonce: Option<[u8; 32]>,
}

/// A request as plain values.
pub struct RequestView {
    pub version: u32,
    pub nego_tokens: Option<Seq<u8>>,
    pub auth_info: Option<Seq<u8>>,
    pub pub_key_auth: Option<Seq<u8>>,
    pub error_code: Option<u32>,
    pub client_nonce: Option<Seq<u8>>,
}

pub open spec fn field_view(field: Option<Vec<u8>>) -> Option<Seq<u8>> {
    match field {
        Some(bytes) => Some(bytes@),
        None => None,
    }
}

impl View for Request {
    type V = RequestView;

    open spec fn view(&self) -> RequestView {
        RequestView {
            version: self.version,
            nego_tokens: field_view(self.nego_tokens),
            auth_info: field_view(self.auth_info),
            pub_key_auth: field_view(self.pub_key_auth),
            error_code: self.error_code,
            client_nonce: match self.client_nonce {
                Some(nonce) => Some(nonce@),
                None => None,
            },
        }
    }
}

/// The tag and the length before so many bytes.
pub open spec fn wrapper(length: int) -> int {
    if length > 0xFF { 4 } else if length > 0x7F { 3 } else { 2 }
}

pub open spec fn wrapped(length: int) -> int {
    length + wrapper(length)
}

/// What a field takes: an octet string, in a wrapper that numbers the field.
pub open spec fn field_size(field: Option<Seq<u8>>) -> int {
    match field {
        Some(bytes) => wrapped(wrapped(bytes.len() as int)),
        None => 0,
    }
}

/// What the tokens take: an octet string, numbered, in a sequence of one sequence,
/// numbered.
pub open spec fn tokens_size(tokens: Option<Seq<u8>>) -> int {
    match tokens {
        Some(bytes) => wrapped(wrapped(wrapped(wrapped(wrapped(bytes.len() as int))))),
        None => 0,
    }
}

/// What an error code takes, which a version before 3 does not have, and version 5 does
/// not measure.
pub open spec fn code_size(version: u32, code: Option<u32>) -> int {
    match code {
        Some(code) => if version < 3 || version == 5 {
            0
        } else if code < 0x80 {
            5
        } else if code < 0x8000 {
            6
        } else if code < 0x0080_0000 {
            7
        } else {
            8
        },
        None => 0,
    }
}

/// How many bytes of a proof are its signature.
pub const SIGNATURE: usize = 16;

impl RequestView {
    /// How long the request is, without the header of the whole.
    pub open spec fn size(self) -> int {
        tokens_size(self.nego_tokens) + field_size(self.auth_info) + field_size(self.pub_key_auth) + code_size(
            self.version,
            self.error_code,
        ) + (if self.client_nonce is Some && self.version >= 5 {
            36int
        } else {
            0
        }) + 5
    }

    /// Whether its length can be written: it is held in 16 bits.
    pub open spec fn fits(self) -> bool {
        self.size() <= 0xFFFF
    }

    /// The request, where a proof too short to hold a signature is none.
    pub open spec fn signed(self) -> RequestView {
        match self.pub_key_auth {
            Some(proof) => if proof.len() < SIGNATURE {
                RequestView { pub_key_auth: None, ..self }
            } else {
                self
            },
            None => self,
        }
    }
}

fn wrap(length: u128) -> (whole: u128)
    requires
        length <= 0x1_0000_0000_0000_0000_0000,
    ensures
        whole == wrapped(length as int),
        whole <= length + 4,
{
    if length > 0xFF { length + 4 } else if length > 0x7F { length + 3 } else { length + 2 }
}

fn field_length(field: &Option<Vec<u8>>) -> (length: u128)
    ensures
        length == field_size(field_view(*field)),
        length <= usize::MAX + 8,
{
    match field {
        Some(bytes) => wrap(wrap(bytes.len() as u128)),
        None => 0,
    }
}

fn tokens_length(tokens: &Option<Vec<u8>>) -> (length: u128)
    ensures
        length == tokens_size(field_view(*tokens)),
        length <= usize::MAX + 20,
{
    match tokens {
        Some(bytes) => wrap(wrap(wrap(wrap(wrap(bytes.len() as u128))))),
        None => 0,
    }
}

fn code_length(version: u32, code: Option<u32>) -> (length: u128)
    ensures
        length == code_size(version, code),
        length <= 8,
{
    match code {
        Some(code) => if version < 3 || version == 5 {
            0
        } else if code < 0x80 {
            5
        } else if code < 0x8000 {
            6
        } else if code < 0x0080_0000 {
            7
        } else {
            8
        },
        None => 0,
    }
}

impl Request {
    /// Whether its length can be written: it is held in 16 bits.
    pub fn fits(&self) -> (fits: bool)
        ensures
            fits == self@.fits(),
    {
        let nonce: u128 = match self.client_nonce {
            Some(_) => if self.version >= 5 { 36 } else { 0 },
            None => 0,
        };
        let length: u128 = tokens_length(&self.nego_tokens) + field_length(&self.auth_info) + field_length(
            &self.pub_key_auth,
        ) + code_length(self.version, self.error_code) + nonce + 5;
        length <= 0xFFFF
    }

    /// The request, where a proof too short to hold a signature is none.
    pub fn signed(self) -> (request: Request)
        ensures
            request@ == self@.signed(),
    {
        let mut request = self;
        let short: bool = match &request.pub_key_auth {
            Some(proof) => proof.len() < SIGNATURE,
            None => false,
        };
        if short {
            request.pub_key_auth = None;
        }
        request
    }
}

/// The request the exchange starts from: there is nothing from the server yet.
pub open spec fn empty_request() -> RequestView {
    RequestView {
        version: 6,
        nego_tokens: None,
        auth_info: None,
        pub_key_auth: None,
        error_code: None,
        client_nonce: None,
    }
}

/// `TsRequest::default`: the newest version the mechanism speaks, and nothing else.
#[verifier::external_body]
fn no_request() -> (request: Request)
    ensures
        request@ == empty_request(),
{
    let r = TsRequest::default();
    Request {
        version: r.version,
        nego_tokens: r.nego_tokens,
        auth_info: r.auth_info,
        pub_key_auth: r.pub_key_auth,
        error_code: r.error_code.map(|code| code.0),
        client_nonce: r.client_nonce,
    }
}

/// The request in these bytes: what `TsRequest::from_buffer` reads, or the words of its
/// error.
pub uninterp spec fn request_in(bytes: Seq<u8>) -> Result<RequestView, Seq<char>>;

pub open spec fn request_view(request: Result<Request, String>) -> Result<RequestView, Seq<char>> {
    match request {
        Ok(request) => Ok(request@),
        Err(cause) => Err(cause@),
    }
}

/// `TsRequest::from_buffer`: a request out of its bytes, or why there is none in them, which
/// the bytes alone decide.
#[verifier::external_body]
fn decoded(bytes: &[u8]) -> (request: Result<Request, String>)
    ensures
        request_view(request) == request_in(bytes@),
{
    TsRequest::from_buffer(bytes).map_err(|e| e.to_string()).map(
        |r| Request {
            version: r.version,
            nego_tokens: r.nego_tokens,
            auth_info: r.auth_info,
            pub_key_auth: r.pub_key_auth,
            error_code: r.error_code.map(|code| code.0),
            client_nonce: r.client_nonce,
        },
    )
}

/// A request in bytes: what `TsRequest::encode_ts_request` writes of one that fits.
pub uninterp spec fn bytes_of(request: RequestView) -> Seq<u8>;

/// `TsRequest::encode_ts_request` into an empty list: the bytes of a request, which it
/// alone decides. The lengths are added up in 16 bits, and it fails on nothing else.
#[verifier::external_body]
fn encoded(request: Request) -> (bytes: Option<Vec<u8>>)
    requires
        request@.fits(),
    ensures
        bytes is Some,
        bytes->0@ == bytes_of(request@),
{
    let r = TsRequest {
        version: request.version,
        nego_tokens: request.nego_tokens,
        auth_info: request.auth_info,
        pub_key_auth: request.pub_key_auth,
        error_code: request.error_code.map(NStatusCode),
        client_nonce: request.client_nonce,
    };
    let mut bytes = Vec::new();
    r.encode_ts_request(&mut bytes).ok().map(|_| bytes)
}

/// The CredSSP mechanism.
#[verifier::external_type_specification]
#[verifier::external_body]
pub struct ExCredSspClient(CredSspClient);

/// A user name as the mechanism holds it.
#[verifier::external_type_specification]
#[verifier::external_body]
pub struct ExUsername(Username);

/// The mechanism's error.
#[verifier::external_type_specification]
#[verifier::external_body]
pub struct ExSspiError(SspiError);

pub open spec fn domain_view(domain: Option<&str>) -> Option<Seq<char>> {
    match domain {
        Some(domain) => Some(domain@),
        None => None,
    }
}

/// Who `Username::new` takes this name to be, or the words of its error where it mixes the
/// ways a name is written.
pub uninterp spec fn user_named(username: Seq<char>, domain: Option<Seq<char>>) -> Result<
    Username,
    Seq<char>,
>;

pub open spec fn name_view(name: Result<Username, String>) -> Result<Username, Seq<char>> {
    match name {
        Ok(name) => Ok(name),
        Err(cause) => Err(cause@),
    }
}

/// `Username::new`: the user name as the mechanism holds it, or why the name is none, which
/// the name and the domain alone decide.
#[verifier::external_body]
fn user_name(username: &str, domain: Option<&str>) -> (name: Result<Username, String>)
    ensures
        name_view(name) == user_named(username@, domain_view(domain)),
{
    Username::new(username, domain).map_err(|e| e.to_string())
}

/// What a password starts with that is a hash in hexadecimal rather than a password.
pub open spec fn hash_prefix() -> Seq<char> {
    seq!['$', 'N', 'T', 'L', 'M', '$', ':']
}

/// How many bytes a character takes in UTF-8.
pub open spec fn utf8_width(c: char) -> nat {
    if (c as u32) < 0x80 {
        1
    } else if (c as u32) < 0x800 {
        2
    } else if (c as u32) < 0x1_0000 {
        3
    } else {
        4
    }
}

/// How many bytes a text takes in UTF-8.
pub open spec fn utf8_size(s: Seq<char>) -> nat
    decreases s.len(),
{
    if s.len() == 0 { 0 } else { utf8_size(s.drop_last()) + utf8_width(s.last()) }
}

pub open spec fn is_hex(c: char) -> bool {
    ('0' <= c && c <= '9') || ('a' <= c && c <= 'f') || ('A' <= c && c <= 'F')
}

/// Whether a text, read from the front two bytes at a time for as long as they are a number
/// in hexadecimal, comes to two bytes that a character reaches across.
pub open spec fn cuts_a_character(s: Seq<char>) -> bool
    decreases s.len(),
{
    if s.len() == 0 {
        false
    } else if utf8_width(s[0]) > 1 {
        utf8_width(s[0]) > 2
    } else if s.len() == 1 {
        false
    } else if utf8_width(s[1]) > 1 {
        true
    } else {
        (is_hex(s[0]) || s[0] == '+') && is_hex(s[1]) && cuts_a_character(s.skip(2))
    }
}

/// Whether a password is a hash that the mechanism cannot read: it takes one of 32 bytes
/// apart two bytes at a time, up to the first two that are no number, and cannot cut a
/// character in two.
pub open spec fn is_torn_hash(password: Seq<char>) -> bool {
    &&& password.len() >= hash_prefix().len()
    &&& password.take(hash_prefix().len() as int) == hash_prefix()
    &&& utf8_size(password.skip(hash_prefix().len() as int)) == 32
    &&& cuts_a_character(password.skip(hash_prefix().len() as int))
}

/// Whether the mechanism can send these: it adds their lengths in UTF-16 up in 16 bits, and
/// no more than 64 bytes of its own to them, and it reads a password that is a hash.
pub open spec fn sendable(username: Seq<char>, domain: Option<Seq<char>>, password: Seq<char>) -> bool {
    &&& utf16(username).len() + utf16(password).len() + (match domain {
        Some(domain) => utf16(domain).len(),
        None => 0,
    }) + 64 <= 0xFFFF
    &&& !is_torn_hash(password)
}

fn characters(text: &str) -> (list: Vec<char>)
    ensures
        list@ == text@,
{
    let mut list: Vec<char> = Vec::new();
    for c in it: text.chars()
        invariant
            list@ == text@.take(it.index()),
            it.seq() == text@,
    {
        list.push(c);
        assert(list@ =~= text@.take(it.index() + 1));
    }
    assert(text@.take(text@.len() as int) =~= text@);
    list
}

fn utf8_bytes(c: char) -> (n: u128)
    ensures
        n == utf8_width(c),
{
    if (c as u32) < 0x80 {
        1
    } else if (c as u32) < 0x800 {
        2
    } else if (c as u32) < 0x1_0000 {
        3
    } else {
        4
    }
}

fn hexadecimal(c: char) -> (hex: bool)
    ensures
        hex == is_hex(c),
{
    ('0' <= c && c <= '9') || ('a' <= c && c <= 'f') || ('A' <= c && c <= 'F')
}

/// Whether a password is a hash that the mechanism cannot read.
fn torn_hash(password: &str) -> (torn: bool)
    ensures
        torn == is_torn_hash(password@),
{
    let list = characters(password);
    let prefix = ['$', 'N', 'T', 'L', 'M', '$', ':'];
    assert(prefix@ =~= hash_prefix());
    if list.len() < 7 {
        return false;
    }
    for i in 0..7usize
        invariant
            prefix@ == hash_prefix(),
            hash_prefix().len() == 7,
            list@ == password@,
            list@.len() >= 7,
            forall|j: int| 0 <= j < i ==> list@[j] == prefix@[j],
    {
        if list[i] != prefix[i] {
            assert(password@.take(7)[i as int] != hash_prefix()[i as int]);
            return false;
        }
    }
    assert(password@.take(7) =~= hash_prefix());
    let ghost rest = password@.skip(7);
    let mut size: u128 = 0;
    for i in 7..list.len()
        invariant
            list@ == password@,
            list@.len() >= 7,
            rest == password@.skip(7),
            size == utf8_size(rest.take(i - 7)),
            size <= 4 * i,
    {
        assert(rest.take(i - 6).drop_last() =~= rest.take(i - 7));
        size = size + utf8_bytes(list[i]);
    }
    assert(rest.take(rest.len() as int) =~= rest);
    if size != 32 {
        return false;
    }
    let mut at: usize = 7;
    assert(rest.skip(0) =~= rest);
    while at < list.len()
        invariant
            list@ == password@,
            7 <= at <= list@.len(),
            rest == password@.skip(7),
            is_torn_hash(password@) == cuts_a_character(rest.skip(at - 7)),
        decreases list@.len() - at,
    {
        let ghost left = rest.skip(at - 7);
        let here: u128 = utf8_bytes(list[at]);
        assert(left[0] == list@[at as int]);
        if here > 1 {
            return here > 2;
        }
        if at + 1 == list.len() {
            return false;
        }
        assert(left[1] == list@[at + 1]);
        if utf8_bytes(list[at + 1]) > 1 {
            return true;
        }
        if !(hexadecimal(list[at]) || list[at] == '+') || !hexadecimal(list[at + 1]) {
            return false;
        }
        assert(left.skip(2) =~= rest.skip(at - 5));
        at = at + 2;
    }
    false
}

/// What a logon is made with.
pub struct Identity {
    /// The public key of the TLS session.
    pub public_key: Seq<u8>,
    pub user: Username,
    pub password: Seq<char>,
    /// The name of the service that is logged on to.
    pub target: Seq<char>,
}

impl Identity {
    pub open spec fn sendable(self) -> bool {
        exists|username: Seq<char>, domain: Option<Seq<char>>|
            #[trigger] user_named(username, domain) == Ok::<Username, Seq<char>>(self.user) && sendable(
                username,
                domain,
                self.password,
            )
    }
}

/// What a client of the mechanism holds of what it was made with, which nothing it is
/// handed later changes.
pub uninterp spec fn made_with(client: CredSspClient) -> Identity;

/// The requests a client of the mechanism was handed, in the order they came.
pub uninterp spec fn requests_given(client: CredSspClient) -> Seq<RequestView>;

/// `CredSspClient::new`, plain NTLM rather than SPNEGO: a client that holds what it was
/// made with, and was handed no request yet. It starts with a random nonce, and fails where the system has no randomness to
/// give, so whether it fails is left unsaid.
#[verifier::external_body]
fn new_client(public_key: Vec<u8>, username: Username, password: &str, target: String) -> (res: Result<
    CredSspClient,
    SspiError,
>)
    ensures
        res matches Ok(client) ==> requests_given(client) == Seq::<RequestView>::empty()
            && made_with(client) == (Identity {
            public_key: public_key@,
            user: username,
            password: password@,
            target: target@,
        }),
{
    let identity = AuthIdentity { username, password: password.to_owned().into() };
    let mode = ClientMode::Ntlm(sspi::ntlm::NtlmConfig::default());
    CredSspClient::new(public_key, identity.into(), CredSspMode::WithCredentials, mode, target)
}

/// A request of the mechanism's own, and what it wants done with it.
pub struct Turn {
    pub request: Request,
    /// Whether it is the last: it carries the credentials themselves and is not answered.
    /// The server's next PDU is the MCS Connect Response.
    pub done: bool,
}

/// A turn as plain values.
pub struct TurnView {
    pub request: RequestView,
    pub done: bool,
}

/// Whether `CredSspClient::process`, run to its end, may give this on a request, of a client
/// that was handed these requests before: its turn, or a refusal. What it gives depends on
/// its nonces and its clock too, so there may be several.
pub uninterp spec fn may_give(
    identity: Identity,
    before: Seq<RequestView>,
    request: RequestView,
    given: Result<TurnView, SspiError>,
) -> bool;

/// `CredSspClient::process`, run to its end, on a client that it gives back unless it
/// refuses: after a refusal the mechanism is in no state to go on. It refuses a request
/// with an error code other than zero before anything else. Which of the possible turns it
/// takes is left unsaid: it depends on nonces and the clock.
#[verifier::external_body]
fn process(client: CredSspClient, request: Request) -> (res: Result<(CredSspClient, Turn), SspiError>)
    requires
        made_with(client).sendable(),
        request@ == request@.signed(),
    ensures
        match res {
            Ok((next, turn)) => {
                &&& made_with(next) == made_with(client)
                &&& requests_given(next) == requests_given(client).push(request@)
                &&& may_give(
                    made_with(client),
                    requests_given(client),
                    request@,
                    Ok(TurnView { request: turn.request@, done: turn.done }),
                )
            },
            Err(e) => may_give(made_with(client), requests_given(client), request@, Err(e)),
        },
        request@.error_code matches Some(code) && code != 0 ==> res is Err,
{
    let mut client = client;
    let Request { version, nego_tokens, auth_info, pub_key_auth, error_code, client_nonce } = request;
    let error_code = error_code.map(NStatusCode);
    let r = TsRequest { version, nego_tokens, auth_info, pub_key_auth, error_code, client_nonce };
    let state = client.process(r).resolve_to_result()?;
    let (r, done) = match state {
        ClientState::ReplyNeeded(r) => (r, false),
        ClientState::FinalMessage(r) => (r, true),
    };
    let TsRequest { version, nego_tokens, auth_info, pub_key_auth, error_code, client_nonce } = r;
    let error_code = error_code.map(|code| code.0);
    let request = Request { version, nego_tokens, auth_info, pub_key_auth, error_code, client_nonce };
    Ok((client, Turn { request, done }))
}

/// The words of an error: what the `Display` of `sspi::Error` writes.
pub uninterp spec fn words_of(error: SspiError) -> Seq<char>;

/// The `Display` of `sspi::Error`: its own words, which are the error's alone.
#[verifier::external_body]
fn words(error: &SspiError) -> (text: String)
    ensures
        text@ == words_of(*error),
{
    error.to_string()
}

pub open spec fn target_text(server_name: Seq<char>) -> Seq<char> {
    "TERMSRV/"@ + server_name
}

/// The name the server checks the ticket against. NTLM does not use it, but CredSSP
/// carries it and a server may log it.
pub fn target(server_name: &str) -> (target: String)
    ensures
        target@ == target_text(server_name@),
{
    let mut target = String::new();
    target.append("TERMSRV/");
    target.append(server_name);
    assert(target@ =~= target_text(server_name@));
    target
}

/// A message for the server, and whether it is the last.
pub struct Reply {
    pub bytes: Vec<u8>,
    pub done: bool,
}

/// The message a turn of the mechanism's amounts to.
pub fn reply_of(turn: Turn) -> (res: Result<Reply, LogonError>)
    ensures
        match res {
            Ok(reply) => turn.request@.fits() && reply.bytes@ == bytes_of(turn.request@) && reply.done
                == turn.done,
            Err(e) => !turn.request@.fits() && e == LogonError::Encoding,
        },
{
    if turn.request.fits() {
        match encoded(turn.request) {
            Some(bytes) => Ok(Reply { bytes, done: turn.done }),
            None => Err(LogonError::Encoding),
        }
    } else {
        Err(LogonError::Encoding)
    }
}

impl<'a> Credentials<'a> {
    /// Whether the mechanism can send these.
    pub open spec fn spec_fit(self) -> bool {
        sendable(self.username@, domain_view(self.domain), self.password@)
    }

    /// Whether the mechanism can send these: it counts in 16 bits, and has to read a
    /// password that is a hash.
    pub fn fit(&self) -> (fit: bool)
        ensures
            fit == self.spec_fit(),
    {
        let domain: u128 = match self.domain {
            Some(domain) => utf16_bytes(domain).len() as u128,
            None => 0,
        };
        let username: u128 = utf16_bytes(self.username).len() as u128;
        let password: u128 = utf16_bytes(self.password).len() as u128;
        username + password + domain + 64 <= 0xFFFF && !torn_hash(self.password)
    }
}

/// The CredSSP exchange.
pub struct Logon {
    client: CredSspClient,
}

/// What an exchange may answer to a request: the message of a turn of the mechanism's, made
/// with its identity after the requests before, or the mechanism's refusal in its own words.
pub open spec fn turned(
    identity: Identity,
    before: Seq<RequestView>,
    request: RequestView,
    res: Result<(Logon, Reply), LogonError>,
) -> bool {
    match res {
        Ok((next, reply)) => {
            &&& next.identity() == identity && next.given() == before.push(request)
            &&& exists|turn: TurnView|
                #[trigger] may_give(identity, before, request, Ok(turn)) && turn.request.fits()
                    && reply.bytes@ == bytes_of(turn.request) && reply.done == turn.done
        },
        Err(LogonError::Encoding) => exists|turn: TurnView|
            #[trigger] may_give(identity, before, request, Ok(turn)) && !turn.request.fits(),
        Err(LogonError::Refused { cause }) => exists|e: SspiError|
            #[trigger] may_give(identity, before, request, Err(e)) && cause@ == words_of(e),
        Err(_) => false,
    }
}

/// Whether a request says why the server refuses.
pub open spec fn refuses(request: RequestView) -> bool {
    request.error_code matches Some(code) && code != 0
}

impl Logon {
    /// What it was made with.
    pub closed spec fn identity(self) -> Identity {
        made_with(self.client)
    }

    /// The requests the mechanism was handed, in the order they came.
    pub closed spec fn given(self) -> Seq<RequestView> {
        requests_given(self.client)
    }

    #[verifier::type_invariant]
    closed spec fn wf(self) -> bool {
        made_with(self.client).sendable()
    }

    /// The exchange for these credentials, bound to the public key of the TLS session it
    /// runs in. What the mechanism refuses is a user name or, for want of randomness, a
    /// start.
    pub fn new(public_key: Vec<u8>, credentials: &Credentials<'_>, server_name: &str) -> (res: Result<
        Logon,
        LogonError,
    >)
        requires
            credentials.spec_fit(),
        ensures
            match user_named(credentials.username@, domain_view(credentials.domain)) {
                Err(words) => res matches Err(LogonError::NotAUserName { username, cause }) && username@
                    == credentials.username@ && cause@ == words,
                Ok(user) => match res {
                    Ok(logon) => logon.given() == Seq::<RequestView>::empty() && logon.identity() == (
                    Identity {
                        public_key: public_key@,
                        user,
                        password: credentials.password@,
                        target: target_text(server_name@),
                    }),
                    Err(e) => e matches LogonError::Starting { cause } && exists|error: SspiError|
                        cause@ == #[trigger] words_of(error),
                },
            },
    {
        match user_name(credentials.username, credentials.domain) {
            Err(cause) => {
                let mut username = String::new();
                username.append(credentials.username);
                assert(username@ =~= credentials.username@);
                Err(LogonError::NotAUserName { username, cause })
            },
            Ok(name) => match new_client(public_key, name, credentials.password, target(server_name)) {
                Ok(client) => Ok(Logon { client }),
                Err(e) => Err(LogonError::Starting { cause: words(&e) }),
            },
        }
    }

    /// The first message, which is produced from an empty request: there is nothing from
    /// the server yet, and the client speaks first.
    pub fn start(self) -> (res: Result<(Logon, Reply), LogonError>)
        ensures
            turned(self.identity(), self.given(), empty_request(), res),
    {
        self.turn(no_request())
    }

    /// The message for one whole answer of the server's.
    pub fn answer(self, answer: &Answer) -> (res: Result<(Logon, Reply), LogonError>)
        ensures
            match request_in(answer.bytes@) {
                Ok(request) => turned(self.identity(), self.given(), request.signed(), res) && (refuses(request) ==> res matches Err(
                    LogonError::Refused { .. },
                )),
                Err(words) => res matches Err(LogonError::Decoding { cause }) && cause@ == words,
            },
    {
        match decoded(answer.bytes.as_slice()) {
            Ok(request) => self.turn(request.signed()),
            Err(cause) => Err(LogonError::Decoding { cause }),
        }
    }

    fn turn(self, request: Request) -> (res: Result<(Logon, Reply), LogonError>)
        requires
            request@ == request@.signed(),
        ensures
            turned(self.identity(), self.given(), request@, res),
            refuses(request@) ==> res matches Err(LogonError::Refused { .. }),
    {
        proof { use_type_invariant(&self); }
        match process(self.client, request) {
            Err(e) => Err(LogonError::Refused { cause: words(&e) }),
            Ok((client, turn)) => match reply_of(turn) {
                Ok(reply) => Ok((Logon { client }, reply)),
                Err(e) => Err(e),
            },
        }
    }
}

} // verus!
