//! ASN.1, the tag-length-value way.
//!
//! Two of the layers a connection has to get through are ASN.1 rather than RDP's own
//! packed structures: the X.509 certificate TLS hands back, and the T.125 MCS connect
//! PDUs that follow. Both are encoded in the same tag-length-value shape: DER for the
//! certificate, BER for MCS, which for what RDP sends differ only in whether a length
//! may be written longer than it needs to be.
//!
//! There is no schema here and no object identifiers: a decoder walks the structure it
//! already knows, naming the tag it expects at each step, and anything else ends the
//! connection.

use vstd::prelude::*;
use vstd::slice::slice_subrange;

use super::wire::{
    copy, cursor, facing, facing_both, steps, view_steps, views, Cursor, Malformed, Reader, Step, Writer,
};

verus! {

pub const BOOLEAN: u8 = 0x01;
pub const INTEGER: u8 = 0x02;
pub const BIT_STRING: u8 = 0x03;
pub const OCTET_STRING: u8 = 0x04;
pub const ENUMERATED: u8 = 0x0A;
pub const SEQUENCE: u8 = 0x30;

/// The first byte of an application tag whose number takes a byte of its own:
/// constructed, application class, number to follow.
pub const APPLICATION: u8 = 0x7F;

pub const CERTIFICATE: &'static str = "a server certificate";

/// A context-specific constructed tag, `[n]`, which is how both X.509 and MCS mark
/// an optional field by position rather than by type.
pub fn context(n: u8) -> (tag: u8)
    ensures
        tag == 0xA0 | n,
{
    0xA0 | n
}

/// The tag of the next value, without consuming it.
///
/// For the one thing a walker needs to decide before it reads: whether an optional
/// field is present.
pub fn peek(r: &Reader<'_>) -> (tag: Option<u8>)
    ensures
        tag == (if r@.left() > 0 { Some(r@.bytes[r@.at]) } else { None }),
{
    let rest = r.rest();
    if rest.len() > 0 { Some(rest[0]) } else { None }
}

/// The number whose base 256 digits these are, most significant first.
pub open spec fn number(digits: Seq<u8>) -> nat
    decreases digits.len(),
{
    if digits.len() == 0 {
        0
    } else {
        number(digits.drop_last()) * 0x100 + digits.last() as nat
    }
}

/// A number in base 256, most significant digit first, in as few digits as hold it.
pub open spec fn digits(n: nat) -> Seq<u8>
    decreases n,
{
    if n < 0x100 { seq![n as u8] } else { digits(n / 0x100).push((n % 0x100) as u8) }
}

/// 256 to the `n`: how many numbers `n` digits can tell apart.
pub open spec fn span(n: nat) -> nat
    decreases n,
{
    if n == 0 { 1 } else { 0x100 * span((n - 1) as nat) }
}

/// A run of digits is worth less than its span.
pub proof fn number_is_bounded(s: Seq<u8>)
    ensures
        number(s) < span(s.len()),
    decreases s.len(),
{
    if s.len() > 0 {
        number_is_bounded(s.drop_last());
    }
}

/// The digits of a number are worth that number, and are no more than its span asks for.
pub proof fn digits_are_worth_their_number(n: nat, most: nat)
    requires
        n < span(most),
        most >= 1,
    ensures
        number(digits(n)) == n,
        1 <= digits(n).len() <= most,
    decreases n,
{
    reveal_with_fuel(number, 2);
    reveal_with_fuel(span, 2);
    if n >= 0x100 {
        assert(most >= 2);
        digits_are_worth_their_number(n / 0x100, (most - 1) as nat);
        assert(digits(n).drop_last() =~= digits(n / 0x100));
    } else {
        assert(digits(n).drop_last() =~= seq![]);
    }
}

/// The powers of 256 that lengths meet.
proof fn spans()
    ensures
        span(1) == 0x100,
        span(2) == 0x1_0000,
        span(3) == 0x100_0000,
        span(4) == 0x1_0000_0000,
        span(8) == 0x1_0000_0000_0000_0000,
{
    reveal_with_fuel(span, 9);
}

/// The tag and the length of the next value, which leaves the reader at its contents.
pub open spec fn header_step(c: Cursor) -> Step<(u8, usize)> {
    match c.u8() {
        Step::Stop(e) => Step::Stop(e),
        Step::Got(tag, c) => match length_step(c) {
            Step::Stop(e) => Step::Stop(e),
            Step::Got(length, c) => Step::Got((tag, length), c),
        },
    }
}

/// Only the definite forms: a short length is one byte under 128, a long one is a
/// count of length bytes followed by that many.
pub open spec fn length_step(c: Cursor) -> Step<usize> {
    match c.u8() {
        Step::Stop(e) => Step::Stop(e),
        Step::Got(first, c) => if first < 0x80 {
            Step::Got(first as usize, c)
        } else if first == 0x80 || first > 0x84 {
            Step::Stop(c.refused("an ASN.1 length of", first as u64))
        } else {
            match c.bytes(first - 0x80) {
                Step::Stop(e) => Step::Stop(e),
                Step::Got(digits, c) => Step::Got(number(digits) as usize, c),
            }
        },
    }
}

/// The length that follows a tag.
fn read_length(r: &mut Reader<'_>) -> (res: Result<usize, Malformed>)
    ensures
        steps(res, final(r)@, length_step(old(r)@)),
        final(r)@.within(),
{
    let first = r.u8()?;
    if first < 0x80 {
        return Ok(first as usize);
    }
    let count: usize = (first - 0x80) as usize;
    // `0x80` is the indefinite form and `0xFF` is reserved; a length longer than a
    // pointer cannot describe a buffer that exists.
    if count == 0 || count > 4 {
        return Err(r.refuse("an ASN.1 length of", first as u64));
    }
    let bytes = r.bytes(count)?;
    let mut length: u64 = 0;
    proof {
        spans();
        assert(bytes@.subrange(0, 0) =~= seq![]);
    }
    for i in 0..count
        invariant
            bytes@.len() == count <= 4,
            length == number(bytes@.subrange(0, i as int)),
            length <= 0xFFFF_FFFF,
    {
        proof {
            let now = bytes@.subrange(0, i + 1);
            assert(now.drop_last() =~= bytes@.subrange(0, i as int));
            spans();
            number_is_bounded(now);
            assert(span(now.len()) <= span(4)) by {
                reveal_with_fuel(span, 5);
            }
        }
        length = length * 0x100 + bytes[i] as u64;
    }
    assert(bytes@.subrange(0, count as int) =~= bytes@);
    Ok(length as usize)
}

/// The tag and the length of the next value, leaving the reader at its contents.
///
/// The indefinite form (length `0x80`, terminated by two zero bytes) is legal BER that
/// neither X.509 nor anything RDP sends uses, and accepting it would mean scanning for
/// a terminator inside data this module does not parse.
pub fn header(r: &mut Reader<'_>) -> (res: Result<(u8, usize), Malformed>)
    ensures
        steps(res, final(r)@, header_step(old(r)@)),
        final(r)@.within(),
{
    let tag = r.u8()?;
    let length: usize = read_length(r)?;
    Ok((tag, length))
}

pub open spec fn expect_step(c: Cursor, tag: u8) -> Step<Seq<u8>> {
    match header_step(c) {
        Step::Stop(e) => Step::Stop(e),
        Step::Got((found, length), c) => if found != tag {
            Step::Stop(c.refused("an ASN.1 tag", found as u64))
        } else {
            c.bytes(length as int)
        },
    }
}

/// The contents of the next value, which must carry `tag`.
pub fn expect<'a>(r: &mut Reader<'a>, tag: u8) -> (res: Result<&'a [u8], Malformed>)
    ensures
        view_steps(res, final(r)@, expect_step(old(r)@, tag)),
        final(r)@.within(),
{
    let (found, length) = header(r)?;
    if found != tag {
        return Err(r.refuse("an ASN.1 tag", found as u64));
    }
    r.bytes(length)
}

pub open spec fn application_step(c: Cursor, tag: u8) -> Step<Seq<u8>> {
    match c.u8() {
        Step::Stop(e) => Step::Stop(e),
        Step::Got(class, c) => if class != APPLICATION {
            Step::Stop(c.refused("an ASN.1 tag", class as u64))
        } else {
            expect_step(c, tag)
        },
    }
}

/// The contents of the next value, which must carry the application tag `tag`.
pub fn expect_application<'a>(r: &mut Reader<'a>, tag: u8) -> (res: Result<&'a [u8], Malformed>)
    ensures
        view_steps(res, final(r)@, application_step(old(r)@, tag)),
        final(r)@.within(),
{
    let class = r.u8()?;
    if class != APPLICATION {
        return Err(r.refuse("an ASN.1 tag", class as u64));
    }
    expect(r, tag)
}

pub open spec fn skip_step(c: Cursor) -> Step<()> {
    match header_step(c) {
        Step::Stop(e) => Step::Stop(e),
        Step::Got((_, length), c) => c.skip(length as int),
    }
}

/// Step over the next value, whatever it is.
pub fn skip(r: &mut Reader<'_>) -> (res: Result<(), Malformed>)
    ensures
        steps(res, final(r)@, skip_step(old(r)@)),
        final(r)@.within(),
{
    let (_, length) = header(r)?;
    r.skip(length)
}

pub open spec fn enumerated_step(c: Cursor) -> Step<u8> {
    match expect_step(c, ENUMERATED) {
        Step::Stop(e) => Step::Stop(e),
        Step::Got(contents, c) => if contents.len() != 1 {
            Step::Stop(c.refused("an ASN.1 enumerated of", contents.len() as u64))
        } else {
            Step::Got(contents[0], c)
        },
    }
}

/// An ENUMERATED, which is one byte in everything RDP sends.
pub fn read_enumerated(r: &mut Reader<'_>) -> (res: Result<u8, Malformed>)
    ensures
        steps(res, final(r)@, enumerated_step(old(r)@)),
        final(r)@.within(),
{
    let contents = expect(r, ENUMERATED)?;
    if contents.len() != 1 {
        return Err(r.refuse("an ASN.1 enumerated of", contents.len() as u64));
    }
    Ok(contents[0])
}

pub open spec fn integer_step(c: Cursor) -> Step<u32> {
    match expect_step(c, INTEGER) {
        Step::Stop(e) => Step::Stop(e),
        Step::Got(contents, c) => if contents.len() == 0 || contents.len() > 5 {
            Step::Stop(c.refused("an ASN.1 integer of", contents.len() as u64))
        } else if number(contents) > 0xFFFF_FFFF {
            Step::Stop(c.refused("an ASN.1 integer", number(contents) as u64))
        } else {
            Step::Got(number(contents) as u32, c)
        },
    }
}

/// An INTEGER, which in what RDP sends is never negative and always fits 32 bits.
pub fn read_integer(r: &mut Reader<'_>) -> (res: Result<u32, Malformed>)
    ensures
        steps(res, final(r)@, integer_step(old(r)@)),
        final(r)@.within(),
{
    let contents = expect(r, INTEGER)?;
    if contents.len() == 0 || contents.len() > 5 {
        return Err(r.refuse("an ASN.1 integer of", contents.len() as u64));
    }
    let mut value: u64 = 0;
    assert(contents@.subrange(0, 0) =~= seq![]);
    for i in 0..contents.len()
        invariant
            contents@.len() <= 5,
            value == number(contents@.subrange(0, i as int)),
            value < span(i as nat),
    {
        proof {
            let now = contents@.subrange(0, i + 1);
            assert(now.drop_last() =~= contents@.subrange(0, i as int));
            number_is_bounded(now);
            reveal_with_fuel(span, 6);
        }
        value = value * 0x100 + contents[i] as u64;
    }
    assert(contents@.subrange(0, contents@.len() as int) =~= contents@);
    if value > 0xFFFF_FFFF {
        return Err(r.refuse("an ASN.1 integer", value));
    }
    Ok(value as u32)
}

fn write_digits(w: &mut Writer, n: usize)
    ensures
        final(w)@ == old(w)@ + digits(n as nat),
    decreases n,
{
    if n < 0x100 {
        w.u8(n as u8);
    } else {
        write_digits(w, n / 0x100);
        w.u8((n % 0x100) as u8);
    }
    assert(w@ =~= old(w)@ + digits(n as nat));
}

fn count_digits(n: usize) -> (count: usize)
    ensures
        count == digits(n as nat).len(),
        1 <= count <= 8,
{
    let mut count: usize = 1;
    let mut left: usize = n;
    proof {
        spans();
        digits_are_worth_their_number(n as nat, 8);
        assert(digits(n as nat).len() == 1 - 1 + digits(n as nat).len());
    }
    while left >= 0x100
        invariant
            count >= 1,
            digits(n as nat).len() == count - 1 + digits(left as nat).len(),
            1 <= digits(n as nat).len() <= 8,
            digits(left as nat).len() >= 1,
        decreases left,
    {
        proof {
            assert(digits(left as nat) == digits((left / 0x100) as nat).push((left % 0x100) as u8));
            spans();
            digits_are_worth_their_number((left / 0x100) as nat, 8);
        }
        left = left / 0x100;
        count = count + 1;
    }
    count
}

/// A length in the fewest bytes that hold it.
pub open spec fn length_bytes(length: nat) -> Seq<u8> {
    if length < 0x80 {
        seq![length as u8]
    } else {
        seq![(0x80 + digits(length).len()) as u8] + digits(length)
    }
}

fn write_length(w: &mut Writer, length: usize)
    ensures
        final(w)@ == old(w)@ + length_bytes(length as nat),
{
    if length < 0x80 {
        w.u8(length as u8);
    } else {
        let count: usize = count_digits(length);
        w.u8(0x80 + count as u8);
        write_digits(w, length);
        assert(w@ =~= old(w)@ + length_bytes(length as nat));
    }
}

/// A tag and the length of the contents that will follow it.
pub fn write_tag(w: &mut Writer, tag: u8, length: usize)
    ensures
        final(w)@ == old(w)@ + seq![tag] + length_bytes(length as nat),
{
    w.u8(tag);
    write_length(w, length);
}

/// An application tag and the length of the contents that will follow it.
pub fn write_application_tag(w: &mut Writer, tag: u8, length: usize)
    ensures
        final(w)@ == old(w)@ + seq![APPLICATION, tag] + length_bytes(length as nat),
{
    w.u8(APPLICATION);
    write_tag(w, tag, length);
    assert(w@ =~= old(w)@ + seq![APPLICATION, tag] + length_bytes(length as nat));
}

/// One whole value: its tag, its length and its contents.
pub open spec fn value_bytes(tag: u8, contents: Seq<u8>) -> Seq<u8> {
    seq![tag] + length_bytes(contents.len()) + contents
}

pub fn write_octet_string(w: &mut Writer, bytes: &[u8])
    ensures
        final(w)@ == old(w)@ + value_bytes(OCTET_STRING, bytes@),
{
    write_tag(w, OCTET_STRING, bytes.len());
    w.bytes(bytes);
    assert(w@ =~= old(w)@ + value_bytes(OCTET_STRING, bytes@));
}

pub open spec fn boolean_bytes(value: bool) -> Seq<u8> {
    value_bytes(BOOLEAN, seq![if value { 0xFFu8 } else { 0u8 }])
}

pub fn write_boolean(w: &mut Writer, value: bool)
    ensures
        final(w)@ == old(w)@ + boolean_bytes(value),
{
    write_tag(w, BOOLEAN, 1);
    w.u8(if value { 0xFF } else { 0 });
    assert(w@ =~= old(w)@ + boolean_bytes(value));
}

/// An INTEGER's contents: its digits, with a zero in front where the first of them
/// would otherwise be taken for a sign.
pub open spec fn integer_contents(value: u32) -> Seq<u8> {
    let digits = digits(value as nat);
    if digits[0] >= 0x80 { seq![0u8] + digits } else { digits }
}

pub open spec fn integer_bytes(value: u32) -> Seq<u8> {
    value_bytes(INTEGER, integer_contents(value))
}

pub fn write_integer(w: &mut Writer, value: u32)
    ensures
        final(w)@ == old(w)@ + integer_bytes(value),
{
    let mut contents = Writer::new();
    write_digits(&mut contents, value as usize);
    let written = contents.finish();
    assert(written@ =~= digits(value as nat));
    proof {
        spans();
        digits_are_worth_their_number(value as nat, 4);
    }
    if written[0] >= 0x80 {
        write_tag(w, INTEGER, written.len() + 1);
        w.u8(0);
    } else {
        write_tag(w, INTEGER, written.len());
    }
    w.bytes(written.as_slice());
    assert(w@ =~= old(w)@ + integer_bytes(value));
}

/// A run of values nobody here reads.
pub open spec fn skip_times_step(c: Cursor, times: nat) -> Step<()>
    decreases times,
{
    if times == 0 {
        Step::Got((), c)
    } else {
        match skip_step(c) {
            Step::Stop(e) => Step::Stop(e),
            Step::Got(_, c) => skip_times_step(c, (times - 1) as nat),
        }
    }
}

/// The `SubjectPublicKeyInfo` of a certificate.
pub open spec fn key_info_spec(der: Seq<u8>) -> Result<Seq<u8>, Malformed> {
    match expect_step(cursor(CERTIFICATE, der), SEQUENCE) {
        Step::Stop(e) => Err(e),
        Step::Got(tbs, _) => match expect_step(cursor(CERTIFICATE, tbs), SEQUENCE) {
            Step::Stop(e) => Err(e),
            Step::Got(fields, _) => {
                let c = cursor(CERTIFICATE, fields);
                let versioned = fields.len() > 0 && fields[0] == 0xA0u8 | 0u8;
                match skip_times_step(c, if versioned { 6 } else { 5 }) {
                    Step::Stop(e) => Err(e),
                    Step::Got(_, c) => match expect_step(c, SEQUENCE) {
                        Step::Stop(e) => Err(e),
                        Step::Got(spki, _) => Ok(spki),
                    },
                }
            },
        },
    }
}

/// The public key of a certificate.
pub open spec fn certificate_public_key_spec(der: Seq<u8>) -> Result<Seq<u8>, Malformed> {
    match key_info_spec(der) {
        Err(e) => Err(e),
        Ok(spki) => match skip_step(cursor(CERTIFICATE, spki)) {
            Step::Stop(e) => Err(e),
            Step::Got(_, c) => match expect_step(c, BIT_STRING) {
                Step::Stop(e) => Err(e),
                // The first byte of a bit string is how many bits of the last byte are
                // padding. A key is whole bytes, so it is zero.
                Step::Got(bits, _) => if bits.len() == 0 {
                    Err(cursor(CERTIFICATE, bits).short(1))
                } else if bits[0] != 0 || bits.len() == 1 {
                    Err(c.refused("a public key with unused bits", bits[0] as u64))
                } else {
                    Ok(bits.skip(1))
                },
            },
        },
    }
}

fn skip_times(r: &mut Reader<'_>, times: usize) -> (res: Result<(), Malformed>)
    ensures
        steps(res, final(r)@, skip_times_step(old(r)@, times as nat)),
        final(r)@.within(),
{
    for i in 0..times
        invariant
            skip_times_step(old(r)@, times as nat) == skip_times_step(r@, (times - i) as nat),
    {
        skip(r)?;
    }
    let _ = r.at();
    Ok(())
}

fn key_info(der: &[u8]) -> (res: Result<&[u8], Malformed>)
    ensures
        views(res, key_info_spec(der@)),
{
    let mut r = Reader::new(CERTIFICATE, der);
    // Certificate ::= SEQUENCE { tbsCertificate, signatureAlgorithm, signature }
    let mut tbs = Reader::new(CERTIFICATE, expect(&mut r, SEQUENCE)?);
    // TBSCertificate ::= SEQUENCE { [0] version DEFAULT v1, serialNumber, signature,
    //                               issuer, validity, subject, subjectPublicKeyInfo, ... }
    let mut fields = Reader::new(CERTIFICATE, expect(&mut tbs, SEQUENCE)?);
    let versioned = match peek(&fields) {
        Some(tag) => tag == context(0),
        None => false,
    };
    let times: usize = if versioned { 6 } else { 5 };
    skip_times(&mut fields, times)?;
    // SubjectPublicKeyInfo ::= SEQUENCE { algorithm, subjectPublicKey BIT STRING }
    expect(&mut fields, SEQUENCE)
}

/// The public key out of a DER-encoded X.509 certificate: the `subjectPublicKey` bit
/// string of its `SubjectPublicKeyInfo`, contents only.
///
/// CredSSP binds the credential exchange to exactly these bytes: the server proves it
/// holds the private key of the certificate that terminated the TLS session, which is
/// what stops an interceptor from replaying the credentials on to the real host. Any
/// other slice of the certificate would authenticate nothing.
pub fn certificate_public_key(der: &[u8]) -> (res: Result<Vec<u8>, Malformed>)
    ensures
        views(res, certificate_public_key_spec(der@)),
{
    let mut spki = Reader::new(CERTIFICATE, key_info(der)?);
    skip(&mut spki)?;
    let bits = expect(&mut spki, BIT_STRING)?;
    if bits.len() == 0 {
        return Err(Malformed::Short { what: CERTIFICATE, len: 0, at: 0, need: 1 });
    }
    if bits[0] != 0 || bits.len() == 1 {
        return Err(
            Malformed::Refused {
                what: CERTIFICATE,
                field: "a public key with unused bits",
                value: bits[0] as u64,
            },
        );
    }
    Ok(copy(slice_subrange(bits, 1, bits.len())))
}

/// A length under 4 GiB that was written reads back.
pub proof fn a_length_reads_back(c: Cursor, length: usize)
    requires
        length <= 0xFFFF_FFFF,
        c.faces(length_bytes(length as nat)),
    ensures
        length_step(c) == Step::Got(length, c.plus(length_bytes(length as nat).len() as int)),
{
    let s = length_bytes(length as nat);
    facing(c, s);
    assert(c.bytes[c.at + 0] == s[0]);
    if length >= 0x80 {
        spans();
        digits_are_worth_their_number(length as nat, 4);
        facing_both(c, seq![s[0]], digits(length as nat));
        assert(c.plus(1).plus(digits(length as nat).len() as int) == c.plus(s.len() as int));
    }
}

/// A value that was written is read back by whoever expects its tag.
pub proof fn a_value_reads_back(c: Cursor, tag: u8, contents: Seq<u8>)
    requires
        contents.len() <= 0xFFFF_FFFF,
        c.faces(value_bytes(tag, contents)),
    ensures
        expect_step(c, tag) == Step::Got(
            contents,
            c.plus(value_bytes(tag, contents).len() as int),
        ),
        skip_step(c) == Step::Got((), c.plus(value_bytes(tag, contents).len() as int)),
{
    let length = length_bytes(contents.len());
    facing_both(c, seq![tag] + length, contents);
    facing_both(c, seq![tag], length);
    facing(c, seq![tag]);
    assert(c.bytes[c.at + 0] == seq![tag][0]);
    a_length_reads_back(c.plus(1), contents.len() as usize);
    let at = c.plus(1).plus(length.len() as int);
    assert(at == c.plus((seq![tag] + length).len() as int));
    assert(at.plus(contents.len() as int) == c.plus(value_bytes(tag, contents).len() as int));
}

/// An integer that was written reads back.
pub proof fn an_integer_reads_back(c: Cursor, value: u32)
    requires
        c.faces(integer_bytes(value)),
    ensures
        integer_step(c) == Step::Got(value, c.plus(integer_bytes(value).len() as int)),
{
    let digits = digits(value as nat);
    let contents = integer_contents(value);
    spans();
    digits_are_worth_their_number(value as nat, 4);
    a_value_reads_back(c, INTEGER, contents);
    if digits[0] >= 0x80 {
        leading_zero(digits);
    }
}

/// A zero in front changes nothing.
proof fn leading_zero(s: Seq<u8>)
    ensures
        number(seq![0u8] + s) == number(s),
    decreases s.len(),
{
    reveal_with_fuel(number, 2);
    let t = seq![0u8] + s;
    if s.len() == 0 {
        assert(t.drop_last() =~= seq![]);
    } else {
        leading_zero(s.drop_last());
        assert(t.drop_last() =~= seq![0u8] + s.drop_last());
    }
}

} // verus!
