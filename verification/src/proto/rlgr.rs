//! RLGR1, the entropy coding of a tile's coefficients, [MS-RDPRFX] 3.1.8.1.7.3.
//!
//! The stream alternates between two ways of coding, and which one is in force is what
//! the coefficients so far have made likely: while zeros are common it is run-length
//! mode, a run of zeros and then one value that is not; once they are rare it is
//! Golomb-Rice mode, one value at a time. Two parameters walk up and down as values
//! come in, one for how long runs are and one for how large values are.

use vstd::arithmetic::power2::{lemma2_to64, lemma_pow2_strictly_increases, pow2};
use vstd::prelude::*;

use super::bits::{bit_at, number_at, power, run_at, run_is_within, to_i16, wrap16, Bits, MAX_STREAM};
use super::wire::Malformed;

verus! {

pub const WHAT: &'static str = "a Progressive graphics PDU";

/// As far up as either parameter walks.
pub const KPMAX: u32 = 80;

/// Where a decode stands: the bit it is at, its two parameters, and what it has
/// decoded.
#[verifier::ext_equal]
pub struct Coding {
    pub at: int,
    /// How long runs are: eight times the number of bits in a run's length. At zero the
    /// mode is Golomb-Rice.
    pub runs: nat,
    /// How large values are: eight times the number of low bits a value has.
    pub sizes: nat,
    pub out: Seq<i16>,
}

pub open spec fn least(a: nat, b: nat) -> nat {
    if a < b { a } else { b }
}

pub open spec fn less(a: nat, b: nat) -> nat {
    if a < b { 0 } else { (a - b) as nat }
}

/// The run that `zeros` zero bits stand for and the parameter they leave behind: each
/// is a whole run at the length in force, and lengthens the next.
pub open spec fn long_runs(zeros: nat, runs: nat) -> (nat, nat)
    decreases zeros,
{
    if zeros == 0 {
        (0, runs)
    } else {
        let (run, after) = long_runs((zeros - 1) as nat, runs);
        (run + pow2(after / 8), least(after + 4, KPMAX as nat))
    }
}

/// The parameter once a value with `ones` in its unary part has come in.
pub open spec fn sized(sizes: nat, ones: nat) -> nat {
    if ones == 0 {
        less(sizes, 2)
    } else if ones == 1 {
        sizes
    } else {
        least(sizes + ones, KPMAX as nat)
    }
}

/// A Golomb-Rice code: ones, a zero, and the low bits, together sixteen bits of number;
/// with it, how many ones there were and where it ends. `None` where the stream does
/// not hold all of it.
pub open spec fn code_at(data: Seq<u8>, at: int, sizes: nat) -> Option<(nat, nat, int)> {
    let ones = run_at(data, at, true);
    let zero = at + ones;
    if zero >= 8 * data.len() || 8 * data.len() - (zero + 1) < sizes / 8 {
        None
    } else {
        let low = number_at(data, zero + 1, sizes / 8);
        Some(((low + ones * pow2(sizes / 8)) % 0x1_0000, ones, zero + 1 + sizes / 8))
    }
}

/// Run-length mode: a run of zeros, then one value that is not zero. What does not fit
/// the component any more is dropped.
pub open spec fn run_step(data: Seq<u8>, s: Coding, len: nat) -> Option<Coding> {
    let zeros = run_at(data, s.at, false);
    let one = s.at + zeros;
    let (run, runs) = long_runs(zeros, s.runs);
    let rest = one + 1;
    if one >= 8 * data.len() || 8 * data.len() - rest < runs / 8 {
        None
    } else {
        let run = run + number_at(data, rest, runs / 8);
        let sign = rest + runs / 8;
        if sign >= 8 * data.len() {
            None
        } else {
            match code_at(data, sign + 1, s.sizes) {
                None => None,
                Some((code, ones, end)) => {
                    let value = wrap16(
                        if number_at(data, sign, 1) == 1 { -wrap16(code + 1int) } else { code + 1int },
                    );
                    let fit = least(run, (len - s.out.len()) as nat);
                    let out = s.out + Seq::new(fit, |i: int| 0i16);
                    Some(
                        Coding {
                            at: end,
                            runs: less(runs, 6),
                            sizes: sized(s.sizes, ones),
                            out: if out.len() < len { out.push(value) } else { out },
                        },
                    )
                },
            }
        }
    }
}

/// The value a Golomb-Rice code stands for: odd codes are negative.
pub open spec fn folded(code: nat) -> i16 {
    if code % 2 == 1 { wrap16(-wrap16(((code + 1) / 2) as int)) } else { (code / 2) as i16 }
}

/// Golomb-Rice mode: one value.
pub open spec fn value_step(data: Seq<u8>, s: Coding) -> Option<Coding> {
    match code_at(data, s.at, s.sizes) {
        None => None,
        Some((code, ones, end)) => Some(
            Coding {
                at: end,
                runs: if code == 0 { least(s.runs + 3, KPMAX as nat) } else { less(s.runs, 3) },
                sizes: sized(s.sizes, ones),
                out: s.out.push(folded(code)),
            },
        ),
    }
}

/// Everything a stream decodes to, no further than `len` values.
pub open spec fn decoded(data: Seq<u8>, s: Coding, len: nat) -> Seq<i16>
    decreases len - s.out.len(),
{
    if s.at >= 8 * data.len() || s.out.len() >= len {
        s.out
    } else {
        let next = if s.runs / 8 > 0 { run_step(data, s, len) } else { value_step(data, s) };
        match next {
            None => s.out,
            Some(s2) => if s2.out.len() > s.out.len() { decoded(data, s2, len) } else { s.out },
        }
    }
}

/// Where every decode starts.
pub open spec fn start() -> Coding {
    Coding { at: 0, runs: 8, sizes: 8, out: seq![] }
}

/// The component a stream decodes to: `len` values, zero past the end of the stream.
pub open spec fn rlgr1_spec(data: Seq<u8>, len: nat) -> Seq<i16> {
    let out = decoded(data, start(), len);
    out + Seq::new((len - out.len()) as nat, |i: int| 0i16)
}

/// A Golomb-Rice code, read.
fn read_code(bits: &mut Bits<'_>, sizes: u32) -> (res: Option<(u32, u32)>)
    requires
        sizes <= KPMAX,
    ensures
        final(bits).data() == old(bits).data(),
        final(bits).within(),
        match (res, code_at(old(bits).data(), old(bits).at(), sizes as nat)) {
            (Some((code, ones)), Some((c, o, end))) => code == c && ones == o && final(bits).at() == end,
            (None, None) => true,
            _ => false,
        },
        res matches Some((code, ones)) ==> code <= 0xFFFF && ones <= 8 * MAX_STREAM,
{
    let ghost data = bits.data();
    let ones: u32 = bits.run_of(true);
    if bits.remaining() < 1 {
        return None;
    }
    bits.skip(1);
    let low_bits: u32 = sizes / 8;
    if bits.remaining() < low_bits as usize {
        return None;
    }
    let low: u32 = bits.take(low_bits);
    let scale: u32 = power(low_bits);
    proof {
        lemma2_to64();
        assert(pow2(low_bits as nat) <= pow2(10)) by {
            if low_bits < 10 {
                lemma_pow2_strictly_increases(low_bits as nat, 10);
            }
        }
        assert(0 <= ones * scale <= 0xFFFF_FFFF * 0x400) by (nonlinear_arith)
            requires
                0 <= ones <= 0xFFFF_FFFF,
                0 <= scale <= 0x400,
        ;
    }
    let code: u64 = (low as u64 + ones as u64 * scale as u64) % 0x1_0000;
    Some((code as u32, ones))
}

fn resize(sizes: u32, ones: u32) -> (r: u32)
    requires
        sizes <= KPMAX,
        ones <= 8 * MAX_STREAM,
    ensures
        r == sized(sizes as nat, ones as nat),
        r <= KPMAX,
{
    if ones == 0 {
        if sizes < 2 { 0 } else { sizes - 2 }
    } else if ones == 1 {
        sizes
    } else if sizes + ones < KPMAX {
        sizes + ones
    } else {
        KPMAX
    }
}

/// The run and the parameter `zeros` zero bits come to.
fn lengthen(zeros: u32, runs: u32) -> (r: (u64, u32))
    requires
        runs <= KPMAX,
    ensures
        (r.0 as nat, r.1 as nat) == long_runs(zeros as nat, runs as nat),
        r.1 <= KPMAX,
        r.0 <= zeros * 0x400,
{
    let mut run: u64 = 0;
    let mut walked: u32 = runs;
    for i in 0..zeros
        invariant
            walked <= KPMAX,
            run <= i * 0x400,
            (run as nat, walked as nat) == long_runs(i as nat, runs as nat),
    {
        proof {
            lemma2_to64();
            assert(pow2((walked / 8) as nat) <= pow2(10)) by {
                if walked / 8 < 10 {
                    lemma_pow2_strictly_increases((walked / 8) as nat, 10);
                }
            }
        }
        run = run + power(walked / 8) as u64;
        walked = if walked + 4 < KPMAX { walked + 4 } else { KPMAX };
    }
    (run, walked)
}

fn push_zeros(out: &mut Vec<i16>, n: usize)
    ensures
        final(out)@ == old(out)@ + Seq::new(n as nat, |i: int| 0i16),
{
    for i in 0..n
        invariant
            out@ == old(out)@ + Seq::new(i as nat, |j: int| 0i16),
    {
        out.push(0);
        assert(out@ =~= old(out)@ + Seq::new((i + 1) as nat, |j: int| 0i16));
    }
    assert(out@ =~= old(out)@ + Seq::new(n as nat, |i: int| 0i16));
}

/// A decode under way.
struct Coefficients<'a> {
    bits: Bits<'a>,
    runs: u32,
    sizes: u32,
    out: Vec<i16>,
}

impl<'a> Coefficients<'a> {
    spec fn coding(&self) -> Coding {
        Coding {
            at: self.bits.at(),
            runs: self.runs as nat,
            sizes: self.sizes as nat,
            out: self.out@,
        }
    }

    spec fn wf(&self) -> bool {
        self.runs <= KPMAX && self.sizes <= KPMAX && self.bits.within()
    }

    /// One run and the value after it; `false` once the stream is out.
    fn run(&mut self, len: usize) -> (more: bool)
        requires
            old(self).wf(),
            old(self).out@.len() < len,
        ensures
            final(self).wf(),
            final(self).bits.data() == old(self).bits.data(),
            match run_step(old(self).bits.data(), old(self).coding(), len as nat) {
                Some(next) => more && final(self).coding() == next,
                None => !more && final(self).out@ == old(self).out@,
            },
            more ==> old(self).out@.len() < final(self).out@.len() <= len,
    {
        let ghost data = self.bits.data();
        let ghost before = self.coding();
        proof { run_is_within(data, before.at, false); }
        let zeros: u32 = self.bits.run_of(false);
        if self.bits.remaining() < 1 {
            return false;
        }
        self.bits.skip(1);
        let (long, runs) = lengthen(zeros, self.runs);
        if self.bits.remaining() < (runs / 8) as usize {
            return false;
        }
        let short: u32 = self.bits.take(runs / 8);
        let run: u64 = long + short as u64;
        if self.bits.remaining() < 1 {
            return false;
        }
        let negative = self.bits.take(1) == 1;
        match read_code(&mut self.bits, self.sizes) {
            None => false,
            Some((code, ones)) => {
                let magnitude: i16 = to_i16(code as i64 + 1);
                let value: i16 = to_i16(if negative { -(magnitude as i64) } else { code as i64 + 1 });
                self.sizes = resize(self.sizes, ones);
                self.runs = if runs < 6 { 0 } else { runs - 6 };
                let room: usize = len - self.out.len();
                let fit: usize = if run < room as u64 { run as usize } else { room };
                push_zeros(&mut self.out, fit);
                if self.out.len() < len {
                    self.out.push(value);
                }
                true
            },
        }
    }

    /// One value; `false` once the stream is out.
    fn value(&mut self) -> (more: bool)
        requires
            old(self).wf(),
        ensures
            final(self).wf(),
            final(self).bits.data() == old(self).bits.data(),
            match value_step(old(self).bits.data(), old(self).coding()) {
                Some(next) => more && final(self).coding() == next,
                None => !more && final(self).out@ == old(self).out@,
            },
    {
        match read_code(&mut self.bits, self.sizes) {
            None => false,
            Some((code, ones)) => {
                self.sizes = resize(self.sizes, ones);
                if code == 0 {
                    self.runs = if self.runs + 3 < KPMAX { self.runs + 3 } else { KPMAX };
                } else {
                    self.runs = if self.runs < 3 { 0 } else { self.runs - 3 };
                }
                let value: i16 = if code % 2 == 1 {
                    to_i16(-(to_i16((code as i64 + 1) / 2) as i64))
                } else {
                    (code / 2) as i16
                };
                self.out.push(value);
                true
            },
        }
    }
}

/// RLGR1 entropy decoding of one component's coefficients. Coefficients past the end of
/// the stream are zero.
pub fn rlgr1(src: &[u8], len: usize) -> (res: Result<Vec<i16>, Malformed>)
    requires
        src@.len() <= MAX_STREAM,
    ensures
        match res {
            Ok(out) => src@.len() > 0 && out@ == rlgr1_spec(src@, len as nat),
            Err(e) => src@.len() == 0 && e == (Malformed::Refused {
                what: WHAT,
                field: "an empty RLGR stream",
                value: 0,
            }),
        },
{
    if src.len() == 0 {
        return Err(Malformed::Refused { what: WHAT, field: "an empty RLGR stream", value: 0 });
    }
    let mut d = Coefficients { bits: Bits::new(src), runs: 8, sizes: 8, out: Vec::with_capacity(len) };
    assert(d.coding() =~= start());
    let mut more = true;
    while more && d.bits.remaining() > 0 && d.out.len() < len
        invariant
            d.wf(),
            d.bits.data() == src@,
            d.out@.len() <= len,
            more ==> decoded(src@, start(), len as nat) == decoded(src@, d.coding(), len as nat),
            !more ==> decoded(src@, start(), len as nat) == d.out@,
        ensures
            decoded(src@, start(), len as nat) == d.out@,
            d.out@.len() <= len,
        decreases len - d.out@.len(), (if more { 1int } else { 0int }),
    {
        more = if d.runs / 8 > 0 { d.run(len) } else { d.value() };
    }
    let pad: usize = len - d.out.len();
    let mut out = d.out;
    push_zeros(&mut out, pad);
    Ok(out)
}

/// A decode starts at the front of its stream with runs of one bit's length and values of
/// one low bit, and what its stream does not reach is zero.
pub proof fn a_decode_starts_with_short_runs(data: Seq<u8>, len: nat, i: int)
    requires
        0 <= i < len,
    ensures
        start() == (Coding { at: 0, runs: 8, sizes: 8, out: seq![] }),
        data.len() == 0 ==> rlgr1_spec(data, len)[i] == 0,
        rlgr1_spec(data, len)[i] == if i < decoded(data, start(), len).len() {
            decoded(data, start(), len)[i]
        } else {
            0
        },
{
}

proof fn ones_are_counted(data: Seq<u8>, at: int, ones: nat)
    requires
        0 <= at,
        at + ones < 8 * data.len(),
        forall|j: int| at <= j < at + ones ==> #[trigger] bit_at(data, j) == 1,
        bit_at(data, at + ones) == 0,
    ensures
        run_at(data, at, true) == ones,
    decreases ones,
{
    if ones > 0 {
        assert(bit_at(data, at) == 1);
        ones_are_counted(data, at + 1, (ones - 1) as nat);
    }
}

proof fn zeros_are_counted(data: Seq<u8>, at: int, zeros: nat)
    requires
        0 <= at,
        at + zeros < 8 * data.len(),
        forall|j: int| at <= j < at + zeros ==> #[trigger] bit_at(data, j) == 0,
        bit_at(data, at + zeros) == 1,
    ensures
        run_at(data, at, false) == zeros,
    decreases zeros,
{
    if zeros > 0 {
        assert(bit_at(data, at) == 0);
        zeros_are_counted(data, at + 1, (zeros - 1) as nat);
    }
}

/// A parameter walked up or down, and kept between nothing and eighty.
pub open spec fn walked(from: int, by: int) -> int {
    if from + by < 0 {
        0
    } else if from + by > 80 {
        80
    } else {
        from + by
    }
}

/// How many ones and low bits say how large values become: none brings the parameter down by
/// two, one leaves it, and more bring it up by as many.
pub open spec fn grown(sizes: int, ones: int) -> int {
    if ones == 0 {
        walked(sizes, -2)
    } else if ones == 1 {
        sizes
    } else {
        walked(sizes, ones)
    }
}

/// Once runs are short enough, a value stands on its own: as many ones as it is above what
/// its low bits can say, a zero, and its low bits, an eighth of the parameter. An even
/// number is twice the value, and an odd one is one less than twice what the value is below
/// zero. A zero makes runs likelier, and anything else less.
pub proof fn a_value_on_its_own_reads_back(data: Seq<u8>, s: Coding, len: nat, ones: nat, n: nat)
    requires
        s.runs < 8,
        s.sizes <= 80,
        s.out.len() < len,
        0 <= s.at,
        s.at + ones + 1 + s.sizes / 8 <= 8 * data.len(),
        forall|j: int| s.at <= j < s.at + ones ==> #[trigger] bit_at(data, j) == 1,
        bit_at(data, s.at + ones) == 0,
        n == number_at(data, s.at + ones + 1, s.sizes / 8) + ones * pow2(s.sizes / 8),
        n < 0x1_0000,
    ensures
        ({
            let value: int = if n % 2 == 0 { n as int / 2 } else { -((n as int + 1) / 2) };
            let next = Coding {
                at: s.at + ones + 1 + s.sizes / 8,
                runs: walked(s.runs as int, if n == 0 { 3 } else { -3 }) as nat,
                sizes: grown(s.sizes as int, ones as int) as nat,
                out: s.out.push(value as i16),
            };
            &&& -32768 <= value <= 32767
            &&& decoded(data, s, len) == decoded(data, next, len)
        }),
{
    ones_are_counted(data, s.at, ones);
    let value: int = if n % 2 == 0 { n as int / 2 } else { -((n as int + 1) / 2) };
    assert(n % 0x1_0000 == n);
    assert(folded(n) == value);
}

/// The zeros that so many whole runs stand for: each is as long as two to the eighth of the
/// parameter, which then walks up by four.
pub open spec fn whole_runs(count: nat, runs: int) -> (int, int)
    decreases count,
{
    if count == 0 {
        (0, runs)
    } else {
        let (so_far, now) = whole_runs((count - 1) as nat, runs);
        (so_far + pow2((now / 8) as nat), walked(now, 4))
    }
}

proof fn whole_runs_are_long(count: nat, runs: nat)
    requires
        runs <= 80,
    ensures
        whole_runs(count, runs as int).0 == long_runs(count, runs).0,
        whole_runs(count, runs as int).1 == long_runs(count, runs).1,
        0 <= whole_runs(count, runs as int).1 <= 80,
        whole_runs(count, runs as int).0 >= 0,
    decreases count,
{
    if count > 0 {
        whole_runs_are_long((count - 1) as nat, runs);
    }
}

/// While runs are long, a value comes after a run of zeros: a zero bit for every whole run, a
/// one, and what is left of the run in as many bits as the parameter has eighths; then a
/// sign, and one less than the value as ones, a zero and low bits. Runs then become shorter.
pub proof fn a_value_after_a_run_reads_back(
    data: Seq<u8>,
    s: Coding,
    len: nat,
    whole: nat,
    negative: bool,
    ones: nat,
    n: nat,
)
    requires
        8 <= s.runs <= 80,
        s.sizes <= 80,
        0 <= s.at,
        ({
            let (zeros, now) = whole_runs(whole, s.runs as int);
            let sign = s.at + whole + 1 + now / 8;
            let rest = number_at(data, s.at + whole + 1, (now / 8) as nat);
            &&& sign + 1 + ones + 1 + s.sizes / 8 <= 8 * data.len()
            &&& forall|j: int| s.at <= j < s.at + whole ==> #[trigger] bit_at(data, j) == 0
            &&& bit_at(data, s.at + whole) == 1
            &&& bit_at(data, sign) == if negative { 1nat } else { 0 }
            &&& forall|j: int| sign + 1 <= j < sign + 1 + ones ==> #[trigger] bit_at(data, j) == 1
            &&& bit_at(data, sign + 1 + ones) == 0
            &&& n == number_at(data, sign + 1 + ones + 1, s.sizes / 8) + ones * pow2(s.sizes / 8)
            &&& n < 0x7FFF
            &&& s.out.len() + zeros + rest < len
        }),
    ensures
        ({
            let (zeros, now) = whole_runs(whole, s.runs as int);
            let sign = s.at + whole + 1 + now / 8;
            let rest = number_at(data, s.at + whole + 1, (now / 8) as nat);
            let value: int = if negative { -(n as int + 1) } else { n as int + 1 };
            let next = Coding {
                at: sign + 1 + ones + 1 + s.sizes / 8,
                runs: walked(now, -6) as nat,
                sizes: grown(s.sizes as int, ones as int) as nat,
                out: (s.out + Seq::new((zeros + rest) as nat, |i: int| 0i16)).push(value as i16),
            };
            decoded(data, s, len) == decoded(data, next, len)
        }),
{
    let (zeros, now) = whole_runs(whole, s.runs as int);
    whole_runs_are_long(whole, s.runs);
    zeros_are_counted(data, s.at, whole);
    let sign = s.at + whole + 1 + now / 8;
    ones_are_counted(data, sign + 1, ones);
    assert(number_at(data, sign, 1) == 2 * number_at(data, sign, 0) + bit_at(data, sign));
    assert(n % 0x1_0000 == n);
    assert(wrap16(n + 1int) == n + 1);
    assert(wrap16(-(n + 1int)) == -(n + 1));
}

} // verus!
