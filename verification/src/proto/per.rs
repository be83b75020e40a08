//! Packed Encoding Rules, the aligned variant, as T.124 uses them.
//!
//! The GCC conference the RDP connection sequence carries is ASN.1, but not the
//! tag-length-value ASN.1 of [`super::der`]. PER drops the tags: the decoder knows the
//! schema, so a field is just its value, and only the things whose size is not fixed by
//! the schema (lengths, counts, unbounded integers) carry any framing at all.
//!
//! Everything here is big-endian, unlike RDP's own structures.

use vstd::prelude::*;

use super::wire::{be16, be32, facing, facing_both, same, steps, view_steps, Cursor, Malformed, Reader, Step, Writer};

verus! {

/// The largest length the two-byte form can carry here: fifteen bits, not the fourteen
/// PER specifies. See [`read_length`].
pub const MAX_LENGTH: u16 = 0x7FFF;

/// A length: one byte under 128, otherwise two with the top bit set.
pub open spec fn length_bytes(length: u16) -> Seq<u8> {
    if length > 0x7F { be16((length + 0x8000) as u16) } else { seq![length as u8] }
}

/// How many bytes [`write_length`] will use.
///
/// Needed because an enclosing length has to be written before the thing it measures,
/// and that measurement includes the inner length field itself.
pub fn length_size(length: u16) -> (n: usize)
    ensures
        n == length_bytes(length).len(),
{
    if length > 0x7F { 2 } else { 1 }
}

pub fn write_length(w: &mut Writer, length: u16)
    requires
        length <= MAX_LENGTH,
    ensures
        final(w)@ == old(w)@ + length_bytes(length),
{
    if length > 0x7F {
        w.u16_be(length + 0x8000);
    } else {
        w.u8(length as u8);
    }
}

pub open spec fn length_step(c: Cursor) -> Step<u16> {
    match c.u8() {
        Step::Stop(e) => Step::Stop(e),
        Step::Got(first, c) => if first < 0x80 {
            Step::Got(first as u16, c)
        } else {
            match c.u8() {
                Step::Stop(e) => Step::Stop(e),
                Step::Got(second, c) => Step::Got(((first - 0x80) * 0x100 + second) as u16, c),
            }
        },
    }
}

/// A length, in the fifteen-bit form RDP actually uses.
///
/// PER says the two-byte form is fourteen bits, and that anything larger is sent as a
/// chain of 16K fragments. RDP's MCS does not fragment: it takes the whole low fifteen
/// bits as the length, so a payload between 16K and 32K is one two-byte length whose
/// second-highest bit is set rather than two fragments.
pub fn read_length(r: &mut Reader<'_>) -> (res: Result<u16, Malformed>)
    ensures
        steps(res, final(r)@, length_step(old(r)@)),
        final(r)@.within(),
        res matches Ok(length) ==> length <= MAX_LENGTH,
{
    let first = r.u8()?;
    if first < 0x80 {
        return Ok(first as u16);
    }
    let second = r.u8()?;
    Ok((first - 0x80) as u16 * 0x100 + second as u16)
}

/// An unconstrained INTEGER: a length, then that many bytes of value.
pub open spec fn integer_bytes(value: u32) -> Seq<u8> {
    if value <= 0xFF {
        seq![1u8, value as u8]
    } else if value <= 0xFFFF {
        seq![2u8] + be16(value as u16)
    } else {
        seq![4u8] + be32(value)
    }
}

pub fn write_integer(w: &mut Writer, value: u32)
    ensures
        final(w)@ == old(w)@ + integer_bytes(value),
{
    if value <= 0xFF {
        write_length(w, 1);
        w.u8(value as u8);
    } else if value <= 0xFFFF {
        write_length(w, 2);
        w.u16_be(value as u16);
    } else {
        write_length(w, 4);
        w.u32_be(value);
    }
    assert(w@ =~= old(w)@ + integer_bytes(value));
}

pub open spec fn integer_step(c: Cursor) -> Step<u32> {
    match length_step(c) {
        Step::Stop(e) => Step::Stop(e),
        Step::Got(length, c) => if length == 0 {
            Step::Got(0, c)
        } else if length == 1 {
            match c.u8() {
                Step::Stop(e) => Step::Stop(e),
                Step::Got(v, c) => Step::Got(v as u32, c),
            }
        } else if length == 2 {
            match c.u16_be() {
                Step::Stop(e) => Step::Stop(e),
                Step::Got(v, c) => Step::Got(v as u32, c),
            }
        } else if length == 4 {
            c.u32_be()
        } else {
            Step::Stop(c.refused("a PER integer of", length as u64))
        },
    }
}

pub fn read_integer(r: &mut Reader<'_>) -> (res: Result<u32, Malformed>)
    ensures
        steps(res, final(r)@, integer_step(old(r)@)),
        final(r)@.within(),
{
    let length = read_length(r)?;
    match length {
        0 => Ok(0),
        1 => Ok(r.u8()? as u32),
        2 => Ok(r.u16_be()? as u32),
        4 => r.u32_be(),
        other => Err(r.refuse("a PER integer of", other as u64)),
    }
}

/// An INTEGER with a lower bound, which PER stores as the distance from that bound.
///
/// Every user and channel identifier in MCS is one of these, with `min` 1001 for a
/// user and 0 for a channel, so the same number on the wire means different things in
/// the two fields, and the bound is not optional context.
pub fn write_integer16(w: &mut Writer, value: u16, min: u16)
    requires
        min <= value,
    ensures
        final(w)@ == old(w)@ + be16((value - min) as u16),
{
    w.u16_be(value - min);
}

pub open spec fn integer16_step(c: Cursor, min: u16) -> Step<u16> {
    match c.u16_be() {
        Step::Stop(e) => Step::Stop(e),
        Step::Got(v, c) => if v + min <= 0xFFFF {
            Step::Got((v + min) as u16, c)
        } else {
            Step::Stop(c.refused("an identifier of", v as u64))
        },
    }
}

pub fn read_integer16(r: &mut Reader<'_>, min: u16) -> (res: Result<u16, Malformed>)
    ensures
        steps(res, final(r)@, integer16_step(old(r)@, min)),
        final(r)@.within(),
{
    let value = r.u16_be()?;
    match value.checked_add(min) {
        Some(sum) => Ok(sum),
        None => Err(r.refuse("an identifier of", value as u64)),
    }
}

/// How far a length is from the bound its schema gives it.
pub open spec fn above(len: nat, min: nat) -> u16 {
    if len > min { (len - min) as u16 } else { 0 }
}

/// An OCTET STRING whose schema gives it a lower size bound: the length written is the
/// distance from that bound, so a fixed-size field (`min` equal to the length) writes
/// a zero length and then the bytes.
pub fn write_octet_string(w: &mut Writer, bytes: &[u8], min: usize)
    requires
        bytes@.len() <= min + MAX_LENGTH,
    ensures
        final(w)@ == old(w)@ + length_bytes(above(bytes@.len(), min as nat)) + bytes@,
{
    let length: u16 = if bytes.len() > min { (bytes.len() - min) as u16 } else { 0 };
    write_length(w, length);
    w.bytes(bytes);
}

pub open spec fn octet_string_step(c: Cursor, min: int) -> Step<Seq<u8>> {
    match length_step(c) {
        Step::Stop(e) => Step::Stop(e),
        Step::Got(length, c) => c.bytes(length + min),
    }
}

pub fn read_octet_string<'a>(r: &mut Reader<'a>, min: usize) -> (res: Result<&'a [u8], Malformed>)
    requires
        length_step(old(r)@) matches Step::Got(length, _) ==> length + min <= usize::MAX,
    ensures
        view_steps(res, final(r)@, octet_string_step(old(r)@, min as int)),
        final(r)@.within(),
{
    let length: usize = read_length(r)? as usize;
    r.bytes(length + min)
}

pub open spec fn expected_step(c: Cursor, field: &'static str, expected: Seq<u8>) -> Step<()> {
    match octet_string_step(c, expected.len() as int) {
        Step::Stop(e) => Step::Stop(e),
        Step::Got(found, c) => if found == expected {
            Step::Got((), c)
        } else {
            // The first byte is enough to name what arrived.
            Step::Stop(c.refused(field, if found.len() > 0 { found[0] as u64 } else { 0 }))
        },
    }
}

/// The whole of an OCTET STRING this client knows the value of in advance: the H.221
/// key that says which of the GCC user data blocks are RDP's.
pub fn expect_octet_string(r: &mut Reader<'_>, field: &'static str, expected: &[u8]) -> (res: Result<
    (),
    Malformed,
>)
    requires
        length_step(old(r)@) matches Step::Got(length, _) ==> length + expected@.len() <= usize::MAX,
    ensures
        steps(res, final(r)@, expected_step(old(r)@, field, expected@)),
        final(r)@.within(),
{
    let found = read_octet_string(r, expected.len())?;
    if !same(found, expected) {
        let first: u64 = if found.len() > 0 { found[0] as u64 } else { 0 };
        return Err(r.refuse(field, first));
    }
    Ok(())
}

/// A length that was written reads back, and takes as many bytes as it was given.
pub proof fn a_length_reads_back(c: Cursor, length: u16)
    requires
        length <= MAX_LENGTH,
        c.faces(length_bytes(length)),
    ensures
        length_step(c) == Step::Got(length, c.plus(length_bytes(length).len() as int)),
{
    let s = length_bytes(length);
    facing(c, s);
    assert(c.bytes[c.at + 0] == s[0]);
    if length > 0x7F {
        assert(c.bytes[c.at + 1] == s[1]);
        assert(c.plus(1).plus(1) == c.plus(2));
    }
}

/// An octet string that was written reads back, and takes the bytes it was written in: its
/// length above the least one, and then itself. One of a fixed size is a zero and itself.
pub proof fn an_octet_string_reads_back(c: Cursor, bytes: Seq<u8>, min: nat)
    requires
        min <= bytes.len() <= min + MAX_LENGTH,
        c.faces(length_bytes(above(bytes.len(), min)) + bytes),
    ensures
        octet_string_step(c, min as int) == Step::Got(
            bytes,
            c.plus((length_bytes(above(bytes.len(), min)) + bytes).len() as int),
        ),
        bytes.len() == min ==> length_bytes(above(bytes.len(), min)) == seq![0u8],
{
    let length = above(bytes.len(), min);
    facing_both(c, length_bytes(length), bytes);
    a_length_reads_back(c, length);
    let d = c.plus(length_bytes(length).len() as int);
    facing(d, bytes);
    assert(d.bytes.subrange(d.at, d.at + bytes.len()) =~= bytes);
    if bytes.len() == min {
        assert(length_bytes(length) =~= seq![0u8]);
    }
}

/// An integer that was written reads back.
pub proof fn an_integer_reads_back(c: Cursor, value: u32)
    requires
        c.faces(integer_bytes(value)),
    ensures
        integer_step(c) == Step::Got(value, c.plus(integer_bytes(value).len() as int)),
{
    let s = integer_bytes(value);
    facing(c, s);
    assert(c.bytes[c.at + 0] == s[0]);
    assert(c.bytes[c.at + 1] == s[1]);
    if value > 0xFF {
        assert(c.bytes[c.at + 2] == s[2]);
        assert(s[1] == be16(value as u16)[0] || value > 0xFFFF);
    }
    if value > 0xFFFF {
        assert(c.bytes[c.at + 3] == s[3]);
        assert(c.bytes[c.at + 4] == s[4]);
    }
}

/// An identifier that was written against a bound reads back against the same bound.
pub proof fn an_identifier_reads_back(c: Cursor, value: u16, min: u16)
    requires
        min <= value,
        c.faces(be16((value - min) as u16)),
    ensures
        integer16_step(c, min) == Step::Got(value, c.plus(2)),
{
    let s = be16((value - min) as u16);
    facing(c, s);
    assert(c.bytes[c.at + 0] == s[0]);
    assert(c.bytes[c.at + 1] == s[1]);
}

} // verus!
