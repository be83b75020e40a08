//! The primitives every PDU is spelled in: a bounds-checked reader and a writer, both
//! with the byte order in the method name, and the one way a PDU is found malformed.

use vstd::prelude::*;
use vstd::slice::slice_subrange;

use crate::text;

verus! {

/// Why a PDU could not be read.
#[derive(Clone, Copy, Debug, PartialEq, Eq)]
pub enum Malformed {
    /// The PDU ended inside a field.
    Short { what: &'static str, len: usize, at: usize, need: usize },
    /// A field holds a value this client does not accept.
    Refused { what: &'static str, field: &'static str, value: u64 },
    /// A field the PDU has to carry is not there.
    Missing { what: &'static str, field: &'static str },
    /// The PDU is a report of something that went wrong at the other end.
    Reported { what: &'static str, reason: &'static str, code: u32 },
}

impl Malformed {
    /// The fault as a sentence.
    pub open spec fn text(self) -> Seq<char> {
        match self {
            Malformed::Short { what, len, at, need } => what@ + " is "@ + text::decimal(len as nat)
                + " bytes, and reading "@ + text::decimal(need as nat) + " more at offset "@
                + text::decimal(at as nat) + " runs past the end"@,
            Malformed::Refused { what, field, value } => what@ + " carries "@ + field@ + " 0x"@
                + text::hex(value as nat) + ", which this client does not accept"@,
            Malformed::Missing { what, field } => what@ + " does not carry "@ + field@,
            Malformed::Reported { what, reason, code } => what@ + ": "@ + reason@ + " (0x"@
                + text::padded_hex(code as nat, 8) + ")"@,
        }
    }

    pub fn to_string(&self) -> (s: String)
        ensures
            s@ == self.text(),
    {
        let mut s = String::new();
        match *self {
            Malformed::Short { what, len, at, need } => {
                s.append(what);
                s.append(" is ");
                text::push_decimal(&mut s, len as u64);
                s.append(" bytes, and reading ");
                text::push_decimal(&mut s, need as u64);
                s.append(" more at offset ");
                text::push_decimal(&mut s, at as u64);
                s.append(" runs past the end");
            },
            Malformed::Refused { what, field, value } => {
                s.append(what);
                s.append(" carries ");
                s.append(field);
                s.append(" 0x");
                text::push_hex(&mut s, value);
                s.append(", which this client does not accept");
            },
            Malformed::Missing { what, field } => {
                s.append(what);
                s.append(" does not carry ");
                s.append(field);
            },
            Malformed::Reported { what, reason, code } => {
                s.append(what);
                s.append(": ");
                s.append(reason);
                s.append(" (0x");
                text::push_padded_hex(&mut s, code as u64, 8);
                s.append(")");
            },
        }
        assert(s@ =~= self.text());
        s
    }
}

/// The 16-bit number that starts at `at`, least significant byte first.
pub open spec fn le16_at(s: Seq<u8>, at: int) -> u16 {
    (s[at] + 0x100 * s[at + 1]) as u16
}

/// The 16-bit number that starts at `at`, most significant byte first.
pub open spec fn be16_at(s: Seq<u8>, at: int) -> u16 {
    (0x100 * s[at] + s[at + 1]) as u16
}

/// The 32-bit number that starts at `at`, least significant byte first.
pub open spec fn le32_at(s: Seq<u8>, at: int) -> u32 {
    (s[at] + 0x100 * s[at + 1] + 0x1_0000 * s[at + 2] + 0x100_0000 * s[at + 3]) as u32
}

/// The 32-bit number that starts at `at`, most significant byte first.
pub open spec fn be32_at(s: Seq<u8>, at: int) -> u32 {
    (0x100_0000 * s[at] + 0x1_0000 * s[at + 1] + 0x100 * s[at + 2] + s[at + 3]) as u32
}

/// A 16-bit number, least significant byte first.
pub open spec fn le16(v: u16) -> Seq<u8> {
    seq![(v % 0x100) as u8, (v / 0x100) as u8]
}

/// A 16-bit number, most significant byte first.
pub open spec fn be16(v: u16) -> Seq<u8> {
    seq![(v / 0x100) as u8, (v % 0x100) as u8]
}

/// A 32-bit number, least significant byte first.
pub open spec fn le32(v: u32) -> Seq<u8> {
    seq![
        (v % 0x100) as u8,
        (v / 0x100 % 0x100) as u8,
        (v / 0x1_0000 % 0x100) as u8,
        (v / 0x100_0000) as u8,
    ]
}

/// A 32-bit number, most significant byte first.
pub open spec fn be32(v: u32) -> Seq<u8> {
    seq![
        (v / 0x100_0000) as u8,
        (v / 0x1_0000 % 0x100) as u8,
        (v / 0x100 % 0x100) as u8,
        (v % 0x100) as u8,
    ]
}

/// `n` zero bytes.
pub open spec fn zeros(n: int) -> Seq<u8> {
    Seq::new(n as nat, |i: int| 0u8)
}

/// Where a read stands: the PDU being read, its bytes, and how many are consumed.
pub struct Cursor {
    pub what: &'static str,
    pub bytes: Seq<u8>,
    pub at: int,
}

/// What one read comes to: a value and where the next read starts, or the fault.
pub enum Step<T> {
    Got(T, Cursor),
    Stop(Malformed),
}

/// The cursor at the front of a PDU.
pub open spec fn cursor(what: &'static str, bytes: Seq<u8>) -> Cursor {
    Cursor { what, bytes, at: 0 }
}

impl Cursor {
    /// The fault of a read of `need` bytes that are not there.
    pub open spec fn short(self, need: int) -> Malformed {
        Malformed::Short {
            what: self.what,
            len: self.bytes.len() as usize,
            at: self.at as usize,
            need: need as usize,
        }
    }

    pub open spec fn refused(self, field: &'static str, value: u64) -> Malformed {
        Malformed::Refused { what: self.what, field, value }
    }

    pub open spec fn missing(self, field: &'static str) -> Malformed {
        Malformed::Missing { what: self.what, field }
    }

    /// No more is consumed than there is.
    pub open spec fn within(self) -> bool {
        0 <= self.at <= self.bytes.len() <= usize::MAX
    }

    /// How many bytes are not consumed yet.
    pub open spec fn left(self) -> int {
        self.bytes.len() - self.at
    }

    /// The bytes not consumed yet.
    pub open spec fn rest(self) -> Seq<u8> {
        self.bytes.subrange(self.at, self.bytes.len() as int)
    }

    /// Whether `s` is what comes next.
    pub open spec fn faces(self, s: Seq<u8>) -> bool {
        &&& 0 <= self.at
        &&& self.at + s.len() <= self.bytes.len()
        &&& self.bytes.subrange(self.at, self.at + s.len()) == s
    }

    pub open spec fn plus(self, n: int) -> Cursor {
        Cursor { what: self.what, bytes: self.bytes, at: self.at + n }
    }

    pub open spec fn bytes(self, n: int) -> Step<Seq<u8>> {
        if self.left() >= n {
            Step::Got(self.bytes.subrange(self.at, self.at + n), self.plus(n))
        } else {
            Step::Stop(self.short(n))
        }
    }

    pub open spec fn skip(self, n: int) -> Step<()> {
        if self.left() >= n {
            Step::Got((), self.plus(n))
        } else {
            Step::Stop(self.short(n))
        }
    }

    pub open spec fn u8(self) -> Step<u8> {
        if self.left() >= 1 {
            Step::Got(self.bytes[self.at], self.plus(1))
        } else {
            Step::Stop(self.short(1))
        }
    }

    pub open spec fn u16_le(self) -> Step<u16> {
        if self.left() >= 2 {
            Step::Got(le16_at(self.bytes, self.at), self.plus(2))
        } else {
            Step::Stop(self.short(2))
        }
    }

    pub open spec fn u16_be(self) -> Step<u16> {
        if self.left() >= 2 {
            Step::Got(be16_at(self.bytes, self.at), self.plus(2))
        } else {
            Step::Stop(self.short(2))
        }
    }

    pub open spec fn u32_le(self) -> Step<u32> {
        if self.left() >= 4 {
            Step::Got(le32_at(self.bytes, self.at), self.plus(4))
        } else {
            Step::Stop(self.short(4))
        }
    }

    pub open spec fn u32_be(self) -> Step<u32> {
        if self.left() >= 4 {
            Step::Got(be32_at(self.bytes, self.at), self.plus(4))
        } else {
            Step::Stop(self.short(4))
        }
    }
}

/// Whether a result, beside where it left the reader, is what `step` comes to.
pub open spec fn steps<T>(res: Result<T, Malformed>, after: Cursor, step: Step<T>) -> bool {
    match res {
        Ok(v) => step == Step::Got(v, after),
        Err(e) => step == Step::<T>::Stop(e),
    }
}

/// Whether a result that borrows is the one wanted, read by its view.
pub open spec fn views<T: View>(res: Result<T, Malformed>, want: Result<T::V, Malformed>) -> bool {
    match res {
        Ok(v) => want == Ok::<T::V, Malformed>(v@),
        Err(e) => want == Err::<T::V, Malformed>(e),
    }
}

/// Whether a result that borrows, beside where it left the reader, is what `step` comes to.
pub open spec fn view_steps<T: View>(
    res: Result<T, Malformed>,
    after: Cursor,
    step: Step<T::V>,
) -> bool {
    match res {
        Ok(v) => step == Step::Got(v@, after),
        Err(e) => step == Step::<T::V>::Stop(e),
    }
}

/// A PDU being read from the front.
pub struct Reader<'a> {
    what: &'static str,
    bytes: &'a [u8],
    at: usize,
}

impl<'a> View for Reader<'a> {
    type V = Cursor;

    closed spec fn view(&self) -> Cursor {
        Cursor { what: self.what, bytes: self.bytes@, at: self.at as int }
    }
}

impl<'a> Reader<'a> {
    #[verifier::type_invariant]
    spec fn within(self) -> bool {
        self.at <= self.bytes@.len() <= usize::MAX
    }

    pub fn new(what: &'static str, bytes: &'a [u8]) -> (r: Reader<'a>)
        ensures
            r@ == cursor(what, bytes@),
            r@.within(),
    {
        assert(bytes.len() <= usize::MAX);
        Reader { what, bytes, at: 0 }
    }

    /// Fails unless `need` more bytes are there.
    fn check(&self, need: usize) -> (res: Result<(), Malformed>)
        ensures
            match res {
                Ok(_) => self@.left() >= need,
                Err(e) => self@.left() < need && e == self@.short(need as int),
            },
            self@.within(),
    {
        proof { use_type_invariant(self); }
        if self.bytes.len() - self.at < need {
            return Err(Malformed::Short { what: self.what, len: self.bytes.len(), at: self.at, need });
        }
        Ok(())
    }

    pub fn u8(&mut self) -> (res: Result<u8, Malformed>)
        ensures
            steps(res, final(self)@, old(self)@.u8()),
            res is Err ==> final(self)@ == old(self)@,
            final(self)@.within(),
    {
        self.check(1)?;
        let v = self.bytes[self.at];
        self.at = self.at + 1;
        Ok(v)
    }

    pub fn u16_le(&mut self) -> (res: Result<u16, Malformed>)
        ensures
            steps(res, final(self)@, old(self)@.u16_le()),
            res is Err ==> final(self)@ == old(self)@,
            final(self)@.within(),
    {
        self.check(2)?;
        let v: u16 = self.bytes[self.at] as u16 + 0x100 * self.bytes[self.at + 1] as u16;
        self.at = self.at + 2;
        Ok(v)
    }

    pub fn u16_be(&mut self) -> (res: Result<u16, Malformed>)
        ensures
            steps(res, final(self)@, old(self)@.u16_be()),
            res is Err ==> final(self)@ == old(self)@,
            final(self)@.within(),
    {
        self.check(2)?;
        let v: u16 = 0x100 * self.bytes[self.at] as u16 + self.bytes[self.at + 1] as u16;
        self.at = self.at + 2;
        Ok(v)
    }

    pub fn u32_le(&mut self) -> (res: Result<u32, Malformed>)
        ensures
            steps(res, final(self)@, old(self)@.u32_le()),
            res is Err ==> final(self)@ == old(self)@,
            final(self)@.within(),
    {
        self.check(4)?;
        let v: u32 = self.bytes[self.at] as u32 + 0x100 * self.bytes[self.at + 1] as u32
            + 0x1_0000 * self.bytes[self.at + 2] as u32 + 0x100_0000 * self.bytes[self.at + 3] as u32;
        self.at = self.at + 4;
        Ok(v)
    }

    pub fn u32_be(&mut self) -> (res: Result<u32, Malformed>)
        ensures
            steps(res, final(self)@, old(self)@.u32_be()),
            res is Err ==> final(self)@ == old(self)@,
            final(self)@.within(),
    {
        self.check(4)?;
        let v: u32 = 0x100_0000 * self.bytes[self.at] as u32 + 0x1_0000 * self.bytes[self.at + 1] as u32
            + 0x100 * self.bytes[self.at + 2] as u32 + self.bytes[self.at + 3] as u32;
        self.at = self.at + 4;
        Ok(v)
    }

    pub fn bytes(&mut self, n: usize) -> (res: Result<&'a [u8], Malformed>)
        ensures
            view_steps(res, final(self)@, old(self)@.bytes(n as int)),
            res is Err ==> final(self)@ == old(self)@,
            final(self)@.within(),
    {
        self.check(n)?;
        let v = slice_subrange(self.bytes, self.at, self.at + n);
        self.at = self.at + n;
        Ok(v)
    }

    pub fn skip(&mut self, n: usize) -> (res: Result<(), Malformed>)
        ensures
            steps(res, final(self)@, old(self)@.skip(n as int)),
            res is Err ==> final(self)@ == old(self)@,
            final(self)@.within(),
    {
        self.check(n)?;
        self.at = self.at + n;
        Ok(())
    }

    /// Everything not consumed yet, left unconsumed.
    pub fn rest(&self) -> (rest: &'a [u8])
        ensures
            rest@ == self@.rest(),
            self@.within(),
    {
        proof { use_type_invariant(self); }
        slice_subrange(self.bytes, self.at, self.bytes.len())
    }

    /// The fault a PDU that is itself a report stands for.
    pub fn report(&self, reason: &'static str, code: u32) -> (e: Malformed)
        ensures
            e == (Malformed::Reported { what: self@.what, reason, code }),
    {
        Malformed::Reported { what: self.what, reason, code }
    }

    /// How many bytes are consumed.
    pub fn at(&self) -> (at: usize)
        ensures
            at == self@.at,
            self@.within(),
    {
        proof { use_type_invariant(self); }
        self.at
    }

    pub fn is_empty(&self) -> (empty: bool)
        ensures
            empty == (self@.left() == 0),
            self@.within(),
    {
        proof { use_type_invariant(self); }
        self.at == self.bytes.len()
    }

    /// The fault of a field with a value this client does not accept.
    pub fn refuse(&self, field: &'static str, value: u64) -> (e: Malformed)
        ensures
            e == self@.refused(field, value),
    {
        Malformed::Refused { what: self.what, field, value }
    }

    /// The fault of a field that is not there.
    pub fn missing(&self, field: &'static str) -> (e: Malformed)
        ensures
            e == self@.missing(field),
    {
        Malformed::Missing { what: self.what, field }
    }
}

/// A PDU being written.
pub struct Writer {
    bytes: Vec<u8>,
}

impl View for Writer {
    type V = Seq<u8>;

    closed spec fn view(&self) -> Seq<u8> {
        self.bytes@
    }
}

impl Writer {
    pub fn new() -> (w: Writer)
        ensures
            w@ == Seq::<u8>::empty(),
    {
        Writer { bytes: Vec::new() }
    }

    pub fn with_capacity(capacity: usize) -> (w: Writer)
        ensures
            w@ == Seq::<u8>::empty(),
    {
        Writer { bytes: Vec::with_capacity(capacity) }
    }

    pub fn len(&self) -> (n: usize)
        ensures
            n == self@.len(),
    {
        self.bytes.len()
    }

    pub fn is_empty(&self) -> (empty: bool)
        ensures
            empty == (self@.len() == 0),
    {
        self.bytes.len() == 0
    }

    pub fn u8(&mut self, v: u8)
        ensures
            final(self)@ == old(self)@ + seq![v],
    {
        self.bytes.push(v);
        assert(self@ =~= old(self)@ + seq![v]);
    }

    pub fn u16_le(&mut self, v: u16)
        ensures
            final(self)@ == old(self)@ + le16(v),
    {
        self.bytes.push((v % 0x100) as u8);
        self.bytes.push((v / 0x100) as u8);
        assert(self@ =~= old(self)@ + le16(v));
    }

    pub fn u16_be(&mut self, v: u16)
        ensures
            final(self)@ == old(self)@ + be16(v),
    {
        self.bytes.push((v / 0x100) as u8);
        self.bytes.push((v % 0x100) as u8);
        assert(self@ =~= old(self)@ + be16(v));
    }

    pub fn u32_le(&mut self, v: u32)
        ensures
            final(self)@ == old(self)@ + le32(v),
    {
        self.bytes.push((v % 0x100) as u8);
        self.bytes.push((v / 0x100 % 0x100) as u8);
        self.bytes.push((v / 0x1_0000 % 0x100) as u8);
        self.bytes.push((v / 0x100_0000) as u8);
        assert(self@ =~= old(self)@ + le32(v));
    }

    pub fn u32_be(&mut self, v: u32)
        ensures
            final(self)@ == old(self)@ + be32(v),
    {
        self.bytes.push((v / 0x100_0000) as u8);
        self.bytes.push((v / 0x1_0000 % 0x100) as u8);
        self.bytes.push((v / 0x100 % 0x100) as u8);
        self.bytes.push((v % 0x100) as u8);
        assert(self@ =~= old(self)@ + be32(v));
    }

    pub fn bytes(&mut self, bytes: &[u8])
        ensures
            final(self)@ == old(self)@ + bytes@,
    {
        self.bytes.extend_from_slice(bytes);
        assert(self@ =~= old(self)@ + bytes@);
    }

    pub fn zeros(&mut self, n: usize)
        ensures
            final(self)@ == old(self)@ + zeros(n as int),
    {
        for i in 0..n
            invariant
                self@ == old(self)@ + zeros(i as int),
        {
            self.bytes.push(0);
            assert(self@ =~= old(self)@ + zeros(i + 1));
        }
        assert(self@ =~= old(self)@ + zeros(n as int));
    }

    pub fn finish(self) -> (bytes: Vec<u8>)
        ensures
            bytes@ == self@,
    {
        self.bytes
    }
}

/// The bytes of a slice, owned.
pub fn copy(bytes: &[u8]) -> (out: Vec<u8>)
    ensures
        out@ == bytes@,
{
    let mut out: Vec<u8> = Vec::with_capacity(bytes.len());
    out.extend_from_slice(bytes);
    assert(out@ =~= bytes@);
    out
}

/// Whether two runs of bytes are the same.
pub fn same(a: &[u8], b: &[u8]) -> (same: bool)
    ensures
        same == (a@ == b@),
{
    if a.len() != b.len() {
        return false;
    }
    for i in 0..a.len()
        invariant
            a@.len() == b@.len(),
            forall|j: int| 0 <= j < i ==> a@[j] == b@[j],
    {
        if a[i] != b[i] {
            return false;
        }
    }
    assert(a@ =~= b@);
    true
}

/// What a cursor faces is what the reads from it see, byte for byte.
pub proof fn facing(c: Cursor, s: Seq<u8>)
    requires
        c.faces(s),
    ensures
        c.left() >= s.len(),
        forall|i: int| #![trigger s[i]] 0 <= i < s.len() ==> c.bytes[c.at + i] == s[i],
{
    assert forall|i: int| #![trigger s[i]] 0 <= i < s.len() implies c.bytes[c.at + i] == s[i] by {
        assert(c.bytes.subrange(c.at, c.at + s.len())[i] == c.bytes[c.at + i]);
    }
}

/// A cursor that faces two runs faces the first, and the second once past the first.
pub proof fn facing_both(c: Cursor, s: Seq<u8>, t: Seq<u8>)
    requires
        c.faces(s + t),
    ensures
        c.faces(s),
        c.plus(s.len() as int).faces(t),
{
    facing(c, s + t);
    assert(c.bytes.subrange(c.at, c.at + s.len()) =~= s) by {
        assert forall|i: int| 0 <= i < s.len() implies c.bytes[c.at + i] == s[i] by {
            assert((s + t)[i] == s[i]);
        }
    }
    let d = c.plus(s.len() as int);
    assert(d.bytes.subrange(d.at, d.at + t.len()) =~= t) by {
        assert forall|i: int| 0 <= i < t.len() implies d.bytes[d.at + i] == t[i] by {
            assert((s + t)[s.len() + i] == t[i]);
        }
    }
}

/// A number written in either byte order reads back as itself, wherever it was written.
pub proof fn numbers_read_back(front: Seq<u8>, back: Seq<u8>, short: u16, long: u32)
    ensures
        le16_at(front + le16(short) + back, front.len() as int) == short,
        be16_at(front + be16(short) + back, front.len() as int) == short,
        le32_at(front + le32(long) + back, front.len() as int) == long,
        be32_at(front + be32(long) + back, front.len() as int) == long,
{
}

/// A byte that comes next is read, and what follows it comes next.
pub proof fn byte_next(c: Cursor, n: u8, rest: Seq<u8>)
    requires
        c.faces(seq![n] + rest),
    ensures
        c.u8() == Step::Got(n, c.plus(1)),
        c.plus(1).faces(rest),
{
    facing_both(c, seq![n], rest);
    facing(c, seq![n]);
    assert(c.bytes[c.at + 0] == seq![n][0]);
}

/// A 16-bit number that comes next is read, and what follows it comes next.
pub proof fn word_next(c: Cursor, n: u16, rest: Seq<u8>)
    requires
        c.faces(le16(n) + rest),
    ensures
        c.u16_le() == Step::Got(n, c.plus(2)),
        c.plus(2).faces(rest),
{
    facing_both(c, le16(n), rest);
    facing(c, le16(n));
    assert(c.bytes[c.at + 0] == le16(n)[0] && c.bytes[c.at + 1] == le16(n)[1]);
    assert(le16_at(c.bytes, c.at) == n);
}

/// A 32-bit number that comes next is read, and what follows it comes next.
pub proof fn long_next(c: Cursor, n: u32, rest: Seq<u8>)
    requires
        c.faces(le32(n) + rest),
    ensures
        c.u32_le() == Step::Got(n, c.plus(4)),
        c.plus(4).faces(rest),
{
    facing_both(c, le32(n), rest);
    facing(c, le32(n));
    assert(c.bytes[c.at + 0] == le32(n)[0] && c.bytes[c.at + 1] == le32(n)[1]);
    assert(c.bytes[c.at + 2] == le32(n)[2] && c.bytes[c.at + 3] == le32(n)[3]);
    assert(le32_at(c.bytes, c.at) == n);
}

/// Bytes that come next are read, and what follows them comes next.
pub proof fn bytes_next(c: Cursor, data: Seq<u8>, rest: Seq<u8>)
    requires
        c.faces(data + rest),
    ensures
        c.bytes(data.len() as int) == Step::Got(data, c.plus(data.len() as int)),
        c.plus(data.len() as int).faces(rest),
{
    facing_both(c, data, rest);
}

/// A buffer faces all of itself from its front.
pub proof fn front_faces(what: &'static str, bytes: Seq<u8>)
    ensures
        cursor(what, bytes).faces(bytes),
{
    assert(bytes.subrange(0, bytes.len() as int) =~= bytes);
}

/// Numbers one after another, four bytes each, least significant byte first.
pub open spec fn le32s(words: Seq<u32>) -> Seq<u8> {
    Seq::new(4 * words.len(), |i: int| le32(words[i / 4])[i % 4])
}

/// A number is worth its bytes, the least significant first.
pub proof fn a_number_is_its_bytes(n: u16, m: u32)
    ensures
        le16(n).len() == 2,
        le16(n)[0] + 256 * le16(n)[1] == n,
        le32(m).len() == 4,
        le32(m)[0] + 256 * (le32(m)[1] + 256 * (le32(m)[2] + 256 * le32(m)[3])) == m,
{
}

/// Each of a row of numbers is read in its place.
pub proof fn a_word_is_in_its_place(words: Seq<u32>, n: int)
    requires
        0 <= n < words.len(),
    ensures
        le32_at(le32s(words), 4 * n) == words[n],
{
    let s = le32s(words);
    let b = le32(words[n]);
    assert(4 * n / 4 == n && 4 * n % 4 == 0);
    assert((4 * n + 1) / 4 == n && (4 * n + 1) % 4 == 1);
    assert((4 * n + 2) / 4 == n && (4 * n + 2) % 4 == 2);
    assert((4 * n + 3) / 4 == n && (4 * n + 3) % 4 == 3);
    assert(s[4 * n] == b[0] && s[4 * n + 1] == b[1] && s[4 * n + 2] == b[2] && s[4 * n + 3] == b[3]);
    assert(b[0] + 0x100 * b[1] + 0x1_0000 * b[2] + 0x100_0000 * b[3] == words[n]);
}

} // verus!
