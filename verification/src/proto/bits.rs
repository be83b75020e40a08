//! A stream of bits, and the sixteen-bit arithmetic the coefficients in it are held to.

use vstd::arithmetic::power2::{lemma2_to64, lemma_pow2_unfold, pow2};
use vstd::prelude::*;

verus! {

/// The most bytes a stream has: as many as leave the number of bits well inside 32 bits.
pub const MAX_STREAM: usize = 0x0FFF_FFFF;

/// What the bit `i` places below the top one of a byte is worth.
pub open spec fn weight(i: int) -> nat {
    if i == 0 { 128 } else if i == 1 { 64 } else if i == 2 { 32 } else if i == 3 { 16 }
    else if i == 4 { 8 } else if i == 5 { 4 } else if i == 6 { 2 } else { 1 }
}

/// The `i`th bit of a stream, most significant first, and zero past its end.
pub open spec fn bit_at(data: Seq<u8>, i: int) -> nat {
    if 0 <= i < 8 * data.len() { data[i / 8] as nat / weight(i % 8) % 2 } else { 0 }
}

/// The `n` bits from `at` as a number.
pub open spec fn number_at(data: Seq<u8>, at: int, n: nat) -> nat
    decreases n,
{
    if n == 0 { 0 } else { 2 * number_at(data, at, (n - 1) as nat) + bit_at(data, at + n - 1) }
}

/// Where a stream stands once `n` more bits are consumed, or all there are.
pub open spec fn past(data: Seq<u8>, at: int, n: int) -> int {
    if at + n <= 8 * data.len() { at + n } else { 8 * data.len() as int }
}

/// How many bits equal to `one` come next, as many as are left.
pub open spec fn run_at(data: Seq<u8>, at: int, one: bool) -> nat
    decreases 8 * data.len() - at,
{
    if at < 8 * data.len() && (bit_at(data, at) == 1) == one { 1 + run_at(data, at + 1, one) } else { 0 }
}

/// A run ends within its stream.
pub proof fn run_is_within(data: Seq<u8>, at: int, one: bool)
    requires
        0 <= at <= 8 * data.len(),
    ensures
        at + run_at(data, at, one) <= 8 * data.len(),
    decreases 8 * data.len() - at,
{
    if at < 8 * data.len() && (bit_at(data, at) == 1) == one {
        run_is_within(data, at + 1, one);
    }
}

/// `n` bits hold less than 2 to the `n`.
pub proof fn number_is_bounded(data: Seq<u8>, at: int, n: nat)
    ensures
        number_at(data, at, n) < pow2(n),
    decreases n,
{
    lemma2_to64();
    if n > 0 {
        number_is_bounded(data, at, (n - 1) as nat);
        lemma_pow2_unfold(n);
    }
}

/// The number a sixteen-bit register is left with once `v` is put in it.
pub open spec fn wrap16(v: int) -> i16 {
    let low = v % 0x1_0000;
    (if low < 0x8000 { low } else { low - 0x1_0000 }) as i16
}

/// The sixteen-bit number nearest `v`.
pub open spec fn clamp16_spec(v: int) -> i16 {
    (if v < -0x8000 { -0x8000 } else if v > 0x7FFF { 0x7FFF } else { v }) as i16
}

/// Half of `v`, towards zero.
pub open spec fn half(v: int) -> int {
    if v >= 0 { v / 2 } else { -(-v / 2) }
}

/// The low sixteen bits of a number, as a signed one.
pub fn to_i16(v: i64) -> (r: i16)
    requires
        -0x1000_0000_0000_0000 <= v <= 0x1000_0000_0000_0000,
    ensures
        r == wrap16(v as int),
{
    let low: i64 = (v + 0x1000_0000_0000_0000) % 0x1_0000;
    let signed: i64 = if low < 0x8000 { low } else { low - 0x1_0000 };
    signed as i16
}

/// 2 to the `n`.
pub fn power(n: u32) -> (p: u32)
    requires
        n < 32,
    ensures
        p == pow2(n as nat),
        p >= 1,
{
    let mut p: u32 = 1;
    proof { lemma2_to64(); }
    for i in 0..n
        invariant
            n < 32,
            p == pow2(i as nat),
            p >= 1,
    {
        proof {
            lemma_pow2_unfold((i + 1) as nat);
            lemma2_to64();
            assert(pow2(i as nat) <= pow2(30)) by {
                if i < 30 {
                    vstd::arithmetic::power2::lemma_pow2_strictly_increases(i as nat, 30);
                }
            }
        }
        p = p * 2;
    }
    p
}

/// A coefficient moved up by `shift` bits, in sixteen bits.
pub open spec fn shifted(v: int, shift: nat) -> int {
    v * pow2(shift)
}

/// The low sixteen bits of `base + (v << shift)`.
pub fn add_shifted(base: i16, v: i64, shift: u8) -> (r: i16)
    requires
        -0x1_0000_0000 <= v <= 0x1_0000_0000,
    ensures
        r == wrap16(base + shifted(v as int, shift as nat)),
{
    if shift >= 16 {
        proof {
            let p = pow2((shift - 16) as nat);
            lemma2_to64();
            vstd::arithmetic::power2::lemma_pow2_adds(16, (shift - 16) as nat);
            assert(pow2(shift as nat) == 0x1_0000 * p);
            assert(v * pow2(shift as nat) == (v * p) * 0x1_0000) by (nonlinear_arith)
                requires
                    pow2(shift as nat) == 0x1_0000 * p,
            ;
            assert((base + (v * p) * 0x1_0000) % 0x1_0000 == base as int % 0x1_0000);
        }
        base
    } else {
        let p: i64 = power(shift as u32) as i64;
        proof {
            lemma2_to64();
            assert(pow2(shift as nat) <= pow2(15)) by {
                if shift < 15 {
                    vstd::arithmetic::power2::lemma_pow2_strictly_increases(shift as nat, 15);
                }
            }
            assert(-0x8000_0000_0000 <= v * p <= 0x8000_0000_0000) by (nonlinear_arith)
                requires
                    1 <= p <= 0x8000,
                    -0x1_0000_0000 <= v <= 0x1_0000_0000,
            ;
        }
        to_i16(base as i64 + v * p)
    }
}

pub fn clamp16(v: i32) -> (r: i16)
    ensures
        r == clamp16_spec(v as int),
{
    if v < -0x8000 { -0x8000 } else if v > 0x7FFF { 0x7FFF } else { v as i16 }
}

pub fn halve(v: i32) -> (r: i32)
    requires
        v > i32::MIN,
    ensures
        r == half(v as int),
{
    if v >= 0 { v / 2 } else { -(-v / 2) }
}

/// A stream read most-significant bit first, zero past its end.
pub struct Bits<'a> {
    data: &'a [u8],
    /// Bits consumed.
    at: usize,
}

impl<'a> Bits<'a> {
    #[verifier::type_invariant]
    spec fn bounded(self) -> bool {
        &&& self.data@.len() <= MAX_STREAM
        &&& self.at <= 8 * self.data@.len()
    }

    pub closed spec fn data(&self) -> Seq<u8> {
        self.data@
    }

    pub closed spec fn at(&self) -> int {
        self.at as int
    }

    pub open spec fn within(&self) -> bool {
        0 <= self.at() <= 8 * self.data().len() <= 8 * MAX_STREAM
    }

    pub fn new(data: &'a [u8]) -> (bits: Bits<'a>)
        requires
            data@.len() <= MAX_STREAM,
        ensures
            bits.data() == data@,
            bits.at() == 0,
            bits.within(),
    {
        Bits { data, at: 0 }
    }

    pub fn remaining(&self) -> (n: usize)
        ensures
            n == 8 * self.data().len() - self.at(),
            self.within(),
    {
        proof { use_type_invariant(self); }
        self.data.len() * 8 - self.at
    }

    /// The bit `ahead` places on.
    fn peek(&self, ahead: usize) -> (bit: u32)
        requires
            ahead <= 32,
        ensures
            bit == bit_at(self.data(), self.at() + ahead),
            bit <= 1,
    {
        proof { use_type_invariant(self); }
        let i: usize = self.at + ahead;
        if i >= self.data.len() * 8 {
            return 0;
        }
        let w: u8 = match i % 8 {
            0 => 128, 1 => 64, 2 => 32, 3 => 16, 4 => 8, 5 => 4, 6 => 2, _ => 1,
        };
        (self.data[i / 8] / w % 2) as u32
    }

    /// Consume `n` bits, or all that are left.
    pub fn skip(&mut self, n: usize)
        requires
            n <= 0x1_0000_0000,
        ensures
            final(self).data() == old(self).data(),
            final(self).at() == past(old(self).data(), old(self).at(), n as int),
            final(self).within(),
    {
        proof { use_type_invariant(&*self); }
        let left: usize = self.data.len() * 8 - self.at;
        self.at = if n <= left { self.at + n } else { self.data.len() * 8 };
    }

    /// Consume `n` bits as a number.
    pub fn take(&mut self, n: u32) -> (v: u32)
        requires
            n <= 32,
        ensures
            v == number_at(old(self).data(), old(self).at(), n as nat),
            v < pow2(n as nat),
            final(self).data() == old(self).data(),
            final(self).at() == past(old(self).data(), old(self).at(), n as int),
            final(self).within(),
    {
        let mut v: u64 = 0;
        proof { lemma2_to64(); }
        for i in 0..n
            invariant
                n <= 32,
                *self == *old(self),
                v == number_at(self.data(), self.at(), i as nat),
                v < pow2(i as nat) <= 0x1_0000_0000,
        {
            let bit: u32 = self.peek(i as usize);
            proof {
                number_is_bounded(self.data(), self.at(), (i + 1) as nat);
                lemma2_to64();
                assert(pow2((i + 1) as nat) <= pow2(32)) by {
                    if i + 1 < 32 {
                        vstd::arithmetic::power2::lemma_pow2_strictly_increases((i + 1) as nat, 32);
                    }
                }
            }
            v = 2 * v + bit as u64;
        }
        self.skip(n as usize);
        v as u32
    }

    /// Count and consume the leading bits equal to `one`, as many as remain.
    pub fn run_of(&mut self, one: bool) -> (n: u32)
        ensures
            n == run_at(old(self).data(), old(self).at(), one),
            n <= 8 * MAX_STREAM,
            final(self).data() == old(self).data(),
            final(self).at() == old(self).at() + n,
            final(self).within(),
    {
        let mut total: u32 = 0;
        let ghost data = self.data();
        let ghost start = self.at();
        proof {
            use_type_invariant(&*self);
            run_is_within(data, start, one);
        }
        loop
            invariant
                self.data() == data,
                data == old(self).data(),
                start == old(self).at(),
                data.len() <= MAX_STREAM,
                0 <= start,
                self.at() == start + total,
                run_at(data, start, one) == total + run_at(data, start + total, one),
                start + run_at(data, start, one) <= 8 * data.len(),
            decreases 8 * data.len() - self.at(),
        {
            proof { use_type_invariant(&*self); }
            if self.remaining() == 0 || (self.peek(0) == 1) != one {
                return total;
            }
            self.skip(1);
            total = total + 1;
        }
    }
}

} // verus!
