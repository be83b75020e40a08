//! RemoteFX Progressive, the codec a Windows desktop draws its pictures in.
//!
//! Progressive (`RDPGFX_CODECID_CAPROGRESSIVE`, [MS-RDPEGFX] 2.2.4) is RemoteFX with a
//! second thought: a 64 by 64 tile is sent once as a coarse first pass and then, while
//! the pixels underneath hold still, refined by *upgrade* passes that each add a few
//! more bits to the coefficients already held. The decoder therefore keeps, for every
//! tile of every surface, the coefficients as last decoded and the sign of each, and
//! an upgrade edits those in place before running the inverse transform again.
//!
//! Only what a modern Windows host sends is here: the reduce-extrapolate wavelet, RLGR1
//! entropy coding, 64-pixel tiles, and the simple, first and upgrade tile kinds. The
//! classic RemoteFX wavelet and RLGR3 are what the older, non-progressive codec used,
//! and a region asking for them is refused by name rather than decoded wrong.

use vstd::arithmetic::power2::{lemma2_to64, lemma_pow2_strictly_increases, pow2};
use vstd::prelude::*;
use vstd::slice::slice_subrange;

use super::bits::{
    add_shifted, clamp16, clamp16_spec, number_at, past, power, shifted, to_i16, wrap16, Bits,
    MAX_STREAM,
};
use super::gfx::Rect16;
use super::rlgr::{rlgr1, rlgr1_spec};
use super::wavelet::{idwt, idwt_spec, pixels_spec, to_bgrx, COEFFS, TILE};
use super::wire::{
    byte_next, bytes_next, cursor, le16, le32, long_next, steps, view_steps, word_next, Cursor, Malformed,
    Reader, Step,
};
use crate::table::{
    insert_weighs, leaving_out_weighs, remove_weighs, walk_weighs, weight, weight_at, weight_before, Table,
};

pub use super::rlgr::WHAT;

verus! {

/// Bytes of `BGRX32` per tile row.
pub const TILE_STRIDE: usize = 256;

/// What one tile costs to keep: its pixels, its coefficients and their signs.
pub const TILE_BYTES: usize = 0x1_0000;

pub const WBT_SYNC: u16 = 0xCCC0;
pub const WBT_FRAME_BEGIN: u16 = 0xCCC1;
pub const WBT_FRAME_END: u16 = 0xCCC2;
pub const WBT_CONTEXT: u16 = 0xCCC3;
pub const WBT_REGION: u16 = 0xCCC4;
pub const WBT_TILE_SIMPLE: u16 = 0xCCC5;
pub const WBT_TILE_FIRST: u16 = 0xCCC6;
pub const WBT_TILE_UPGRADE: u16 = 0xCCC7;

pub const SYNC_MAGIC: u32 = 0xCACC_ACCA;
pub const SYNC_VERSION: u16 = 0x0100;

/// Region flag: the wavelet is the reduce-extrapolate variant. The only one decoded.
pub const DWT_REDUCE_EXTRAPOLATE: u8 = 0x01;
/// Tile flag: the coefficients are a difference against the tile as last decoded.
pub const TILE_DIFFERENCE: u8 = 0x01;

/// The quality that stands for nothing held back.
pub const WHOLE_QUALITY: u8 = 0xFF;

/// Where the sub-band with the coarsest picture starts.
pub const LL3_AT: usize = 4015;

pub open spec fn refusal(field: &'static str, value: u64) -> Malformed {
    Malformed::Refused { what: WHAT, field, value }
}

fn refuse(field: &'static str, value: u64) -> (e: Malformed)
    ensures
        e == refusal(field, value),
{
    Malformed::Refused { what: WHAT, field, value }
}

/// Which sub-band a coefficient belongs to, in the order the quantization values are
/// kept: HL1, LH1, HH1, HL2, LH2, HH2, HL3, LH3, HH3, LL3.
pub open spec fn band_of(i: int) -> int {
    if i < 1023 { 0 } else if i < 2046 { 1 } else if i < 3007 { 2 } else if i < 3279 { 3 }
    else if i < 3551 { 4 } else if i < 3807 { 5 } else if i < 3879 { 6 } else if i < 3951 { 7 }
    else if i < 4015 { 8 } else { 9 }
}

fn band(i: usize) -> (b: usize)
    ensures
        b == band_of(i as int),
        b < 10,
{
    if i < 1023 { 0 } else if i < 2046 { 1 } else if i < 3007 { 2 } else if i < 3279 { 3 }
    else if i < 3551 { 4 } else if i < 3807 { 5 } else if i < 3879 { 6 } else if i < 3951 { 7 }
    else if i < 4015 { 8 } else { 9 }
}

/// One quantization value per sub-band.
#[derive(Clone, Copy, PartialEq, Eq, Debug)]
pub struct Quant(pub [u8; 10]);

impl View for Quant {
    type V = Seq<u8>;

    open spec fn view(&self) -> Seq<u8> {
        self.0@
    }
}

/// Ten values, none more than `most`.
pub open spec fn at_most(q: Seq<u8>, most: int) -> bool {
    q.len() == 10 && forall|i: int| 0 <= i < 10 ==> #[trigger] q[i] <= most
}

/// The values a quantization table may hold.
pub open spec fn usable(q: Seq<u8>) -> bool {
    q.len() == 10 && forall|i: int| 0 <= i < 10 ==> 6 <= #[trigger] q[i] <= 15
}

/// The five packed bytes of a `TS_RFX_CODEC_QUANT`, [MS-RDPRFX] 2.2.2.1.5.
pub open spec fn unpacked(b0: u8, b1: u8, b2: u8, b3: u8, b4: u8) -> Seq<u8> {
    seq![
        b3 / 16,
        b4 % 16,
        b4 / 16,
        b2 % 16,
        b2 / 16,
        b3 % 16,
        b0 / 16,
        b1 % 16,
        b1 / 16,
        b0 % 16,
    ]
}

pub open spec fn quant_step(c: Cursor) -> Step<Seq<u8>> {
    match c.u8() {
        Step::Stop(e) => Step::Stop(e),
        Step::Got(b0, c) => match c.u8() {
            Step::Stop(e) => Step::Stop(e),
            Step::Got(b1, c) => match c.u8() {
                Step::Stop(e) => Step::Stop(e),
                Step::Got(b2, c) => match c.u8() {
                    Step::Stop(e) => Step::Stop(e),
                    Step::Got(b3, c) => match c.u8() {
                        Step::Stop(e) => Step::Stop(e),
                        Step::Got(b4, c) => Step::Got(unpacked(b0, b1, b2, b3, b4), c),
                    },
                },
            },
        },
    }
}

/// The values of two tables together.
pub open spec fn sum_of(a: Seq<u8>, b: Seq<u8>) -> Seq<u8> {
    Seq::new(10, |i: int| (a[i] + b[i]) as u8)
}

/// Whether no value of `b` is above the one of `a` in its place.
pub open spec fn covers(a: Seq<u8>, b: Seq<u8>) -> bool {
    forall|i: int| 0 <= i < 10 ==> #[trigger] b[i] <= a[i]
}

pub open spec fn difference_of(a: Seq<u8>, b: Seq<u8>) -> Seq<u8> {
    Seq::new(10, |i: int| (a[i] - b[i]) as u8)
}

/// Every value one less.
pub open spec fn lowered(a: Seq<u8>) -> Seq<u8> {
    Seq::new(10, |i: int| (a[i] - 1) as u8)
}

impl Quant {
    pub fn zero() -> (q: Quant)
        ensures
            q@ == Seq::new(10, |i: int| 0u8),
            at_most(q@, 0),
    {
        let q = Quant([0, 0, 0, 0, 0, 0, 0, 0, 0, 0]);
        assert(q@ =~= Seq::new(10, |i: int| 0u8));
        q
    }

    fn read(r: &mut Reader<'_>) -> (res: Result<Quant, Malformed>)
        ensures
            view_steps(res, final(r)@, quant_step(old(r)@)),
            final(r)@.within(),
            res matches Ok(q) ==> at_most(q@, 15),
    {
        let b0 = r.u8()?;
        let b1 = r.u8()?;
        let b2 = r.u8()?;
        let b3 = r.u8()?;
        let b4 = r.u8()?;
        let q = Quant(
            [
                b3 / 16,  // HL1
                b4 % 16,  // LH1
                b4 / 16,  // HH1
                b2 % 16,  // HL2
                b2 / 16,  // LH2
                b3 % 16,  // HH2
                b0 / 16,  // HL3
                b1 % 16,  // LH3
                b1 / 16,  // HH3
                b0 % 16,  // LL3
            ],
        );
        assert(q@ =~= unpacked(b0, b1, b2, b3, b4));
        Ok(q)
    }

    /// The values of two tables together.
    pub fn plus(self, other: Quant) -> (q: Quant)
        requires
            at_most(self@, 127),
            at_most(other@, 127),
        ensures
            q@ == sum_of(self@, other@),
    {
        let (a, b) = (self.0, other.0);
        let q = Quant(
            [
                a[0] + b[0], a[1] + b[1], a[2] + b[2], a[3] + b[3], a[4] + b[4],
                a[5] + b[5], a[6] + b[6], a[7] + b[7], a[8] + b[8], a[9] + b[9],
            ],
        );
        assert(q@ =~= sum_of(self@, other@));
        q
    }

    /// `self - other` per band, or `None` if any band would go negative.
    pub fn minus(self, other: Quant) -> (res: Option<Quant>)
        ensures
            match res {
                Some(q) => covers(self@, other@) && q@ == difference_of(self@, other@),
                None => !covers(self@, other@),
            },
    {
        let (a, b) = (self.0, other.0);
        for i in 0..10usize
            invariant
                a@ == self@,
                b@ == other@,
                forall|j: int| 0 <= j < i ==> #[trigger] b@[j] <= a@[j],
        {
            if b[i] > a[i] {
                assert(!(other@[i as int] <= self@[i as int]));
                return None;
            }
        }
        assert(covers(self@, other@));
        let q = Quant(
            [
                a[0] - b[0], a[1] - b[1], a[2] - b[2], a[3] - b[3], a[4] - b[4],
                a[5] - b[5], a[6] - b[6], a[7] - b[7], a[8] - b[8], a[9] - b[9],
            ],
        );
        assert(q@ =~= difference_of(self@, other@));
        Some(q)
    }

    fn lower(self) -> (q: Quant)
        requires
            forall|i: int| 0 <= i < 10 ==> #[trigger] self@[i] >= 1,
        ensures
            q@ == lowered(self@),
    {
        let a = self.0;
        assert forall|i: int| 0 <= i < 10 implies #[trigger] a@[i] >= 1 by {
            assert(self@[i] >= 1);
        }
        let q = Quant(
            [
                a[0] - 1, a[1] - 1, a[2] - 1, a[3] - 1, a[4] - 1,
                a[5] - 1, a[6] - 1, a[7] - 1, a[8] - 1, a[9] - 1,
            ],
        );
        assert(q@ =~= lowered(self@));
        q
    }

    fn is_usable(self) -> (ok: bool)
        ensures
            ok == usable(self@),
    {
        let a = self.0;
        for i in 0..10usize
            invariant
                a@ == self@,
                forall|j: int| 0 <= j < i ==> 6 <= #[trigger] a@[j] <= 15,
        {
            if a[i] < 6 || a[i] > 15 {
                assert(!(6 <= self@[i as int] <= 15));
                return false;
            }
        }
        true
    }
}

/// Progressive quantization: how much of each component's precision a pass holds
/// back. The `quality` byte on the wire is not needed to decode and is skipped.
#[derive(Clone, Copy, PartialEq, Eq, Debug)]
pub struct ProgQuant {
    pub y: Quant,
    pub cb: Quant,
    pub cr: Quant,
}

/// A [`ProgQuant`] by its values.
pub struct ProgQuantView {
    pub y: Seq<u8>,
    pub cb: Seq<u8>,
    pub cr: Seq<u8>,
}

impl ProgQuantView {
    pub open spec fn wf(self) -> bool {
        at_most(self.y, 15) && at_most(self.cb, 15) && at_most(self.cr, 15)
    }
}

impl View for ProgQuant {
    type V = ProgQuantView;

    open spec fn view(&self) -> ProgQuantView {
        ProgQuantView { y: self.y@, cb: self.cb@, cr: self.cr@ }
    }
}

/// Nothing held back.
pub open spec fn nothing_held() -> ProgQuantView {
    let zero = Seq::new(10, |i: int| 0u8);
    ProgQuantView { y: zero, cb: zero, cr: zero }
}

pub open spec fn prog_step(c: Cursor) -> Step<ProgQuantView> {
    match c.u8() {
        Step::Stop(e) => Step::Stop(e),
        Step::Got(_, c) => match quant_step(c) {
            Step::Stop(e) => Step::Stop(e),
            Step::Got(y, c) => match quant_step(c) {
                Step::Stop(e) => Step::Stop(e),
                Step::Got(cb, c) => match quant_step(c) {
                    Step::Stop(e) => Step::Stop(e),
                    Step::Got(cr, c) => Step::Got(ProgQuantView { y, cb, cr }, c),
                },
            },
        },
    }
}

impl ProgQuant {
    fn read(r: &mut Reader<'_>) -> (res: Result<ProgQuant, Malformed>)
        ensures
            view_steps(res, final(r)@, prog_step(old(r)@)),
            final(r)@.within(),
            res matches Ok(q) ==> q@.wf(),
    {
        r.u8()?; // quality
        let y = Quant::read(r)?;
        let cb = Quant::read(r)?;
        let cr = Quant::read(r)?;
        Ok(ProgQuant { y, cb, cr })
    }
}

/// What an SRL reader knows between two values: where it is, how long runs are, whether
/// a run's `1` has been read and its value has not, and the zeros still owed.
pub struct SrlState {
    pub at: int,
    pub kp: nat,
    pub mode: bool,
    pub nz: nat,
}

/// A magnitude in unary: a zero for each step above one, ended by a one or by the most
/// it can be.
pub open spec fn magnitude_at(data: Seq<u8>, at: int, mag: nat, max: nat) -> (nat, int)
    decreases max - mag,
{
    if mag >= max {
        (mag, at)
    } else if bit_is_one(data, at) {
        (mag, past(data, at, 1))
    } else {
        magnitude_at(data, past(data, at, 1), mag + 1, max)
    }
}

pub open spec fn bit_is_one(data: Seq<u8>, at: int) -> bool {
    number_at(data, at, 1) == 1
}

/// The value itself: a sign, and a magnitude of up to `num_bits` bits.
pub open spec fn srl_value(data: Seq<u8>, s: SrlState, num_bits: nat) -> (SrlState, i16) {
    let at = past(data, s.at, 1);
    let kp = if s.kp < 6 { 0 } else { (s.kp - 6) as nat };
    let (mag, end) = if num_bits == 1 {
        (1, at)
    } else {
        magnitude_at(data, at, 1, (pow2(num_bits) - 1) as nat)
    };
    let mag: int = if mag > 0x7FFF { 0x7FFF } else { mag as int };
    (
        SrlState { at: end, kp, mode: false, nz: s.nz },
        (if bit_is_one(data, s.at) { -mag } else { mag }) as i16,
    )
}

/// The next value of the run-length code for the coefficients whose sign is not yet
/// known, [MS-RDPEGFX] 3.3.8.3.2.
pub open spec fn srl_step(data: Seq<u8>, s: SrlState, num_bits: nat) -> (SrlState, i16) {
    let k = s.kp / 8;
    if s.nz > 0 {
        (SrlState { nz: (s.nz - 1) as nat, ..s }, 0)
    } else if s.mode {
        srl_value(data, s, num_bits)
    } else if !bit_is_one(data, s.at) {
        // A run of at least 2 to the k zeros.
        (
            SrlState {
                at: past(data, s.at, 1),
                kp: if s.kp + 4 < 80 { s.kp + 4 } else { 80 },
                mode: false,
                nz: (pow2(k) - 1) as nat,
            },
            0,
        )
    } else {
        // A shorter run, its length in the next k bits, then a value.
        let at = past(data, s.at, 1);
        let run = number_at(data, at, k);
        let s = SrlState { at: past(data, at, k as int), kp: s.kp, mode: true, nz: run };
        if run > 0 {
            (SrlState { nz: (run - 1) as nat, ..s }, 0)
        } else {
            srl_value(data, s, num_bits)
        }
    }
}

/// The SRL reader.
struct Srl<'a> {
    bits: Bits<'a>,
    kp: u32,
    /// `true` between a run's `1` and its unary magnitude.
    mode: bool,
    /// Zeros still owed from the current run.
    nz: u32,
}

impl<'a> Srl<'a> {
    spec fn state(&self) -> SrlState {
        SrlState { at: self.bits.at(), kp: self.kp as nat, mode: self.mode, nz: self.nz as nat }
    }

    spec fn wf(&self) -> bool {
        self.kp <= 80
    }

    fn value(&mut self, num_bits: u32) -> (v: i16)
        requires
            old(self).wf(),
            1 <= num_bits <= 24,
        ensures
            final(self).wf(),
            final(self).bits.data() == old(self).bits.data(),
            srl_value(old(self).bits.data(), old(self).state(), num_bits as nat) == (final(self).state(), v),
            v > i16::MIN,
    {
        let ghost data = self.bits.data();
        let ghost before = self.state();
        self.mode = false;
        let negative = self.bits.take(1) == 1;
        self.kp = if self.kp < 6 { 0 } else { self.kp - 6 };
        let mut mag: u32 = 1;
        if num_bits > 1 {
            let max: u32 = power(num_bits) - 1;
            proof {
                lemma2_to64();
                lemma_pow2_strictly_increases(1, num_bits as nat);
            }
            let ghost start = self.bits.at();
            let ghost (kp, nz) = (self.kp, self.nz);
            let mut ended = false;
            while !ended && mag < max
                invariant
                    1 <= mag <= max,
                    self.bits.data() == data,
                    self.kp == kp,
                    self.nz == nz,
                    !self.mode,
                    self.wf(),
                    ended ==> magnitude_at(data, start, 1, max as nat) == (mag as nat, self.bits.at()),
                    !ended ==> magnitude_at(data, start, 1, max as nat) == magnitude_at(
                        data,
                        self.bits.at(),
                        mag as nat,
                        max as nat,
                    ),
                ensures
                    magnitude_at(data, start, 1, max as nat) == (mag as nat, self.bits.at()),
                decreases max - mag, (if ended { 0int } else { 1int }),
            {
                if self.bits.take(1) == 1 {
                    ended = true;
                } else {
                    mag = mag + 1;
                }
            }
        }
        let held: i16 = if mag > 0x7FFF { 0x7FFF } else { mag as i16 };
        if negative { -held } else { held }
    }

    fn read(&mut self, num_bits: u32) -> (v: i16)
        requires
            old(self).wf(),
            1 <= num_bits <= 24,
        ensures
            final(self).wf(),
            final(self).bits.data() == old(self).bits.data(),
            srl_step(old(self).bits.data(), old(self).state(), num_bits as nat) == (final(self).state(), v),
            v > i16::MIN,
    {
        if self.nz > 0 {
            self.nz = self.nz - 1;
            return 0;
        }
        let k: u32 = self.kp / 8;
        if !self.mode {
            if self.bits.take(1) != 1 {
                // A run of at least 1 << k zeros.
                self.nz = power(k) - 1;
                self.kp = if self.kp + 4 < 80 { self.kp + 4 } else { 80 };
                return 0;
            }
            // A shorter run, its length in the next k bits, then a magnitude.
            self.mode = true;
            self.nz = self.bits.take(k);
            if self.nz > 0 {
                self.nz = self.nz - 1;
                return 0;
            }
        }
        self.value(num_bits)
    }
}

/// One component of a tile as it stands between passes.
pub struct Component {
    /// The coefficients as last decoded, before the inverse wavelet; what an upgrade
    /// pass refines.
    current: Vec<i16>,
    /// What the SRL upgrade reader has learnt of each coefficient's sign.
    sign: Vec<i16>,
    /// The bit position after the last pass: the precision the coefficients are held
    /// to, and so how many bits the next upgrade adds.
    bitpos: Quant,
}

/// A [`Component`] by its contents.
pub struct ComponentView {
    pub current: Seq<i16>,
    pub sign: Seq<i16>,
    pub bitpos: Seq<u8>,
}

impl ComponentView {
    pub open spec fn wf(self) -> bool {
        &&& self.current.len() == COEFFS
        &&& self.sign.len() == COEFFS
        &&& at_most(self.bitpos, 30)
    }
}

impl View for Component {
    type V = ComponentView;

    closed spec fn view(&self) -> ComponentView {
        ComponentView { current: self.current@, sign: self.sign@, bitpos: self.bitpos@ }
    }
}

/// A coefficient of the coarsest sub-band, each of which is coded as what it adds to
/// the one before.
pub open spec fn summed(raw: Seq<i16>, i: int) -> i16
    decreases i,
{
    if i <= LL3_AT { raw[LL3_AT as int] } else { wrap16(summed(raw, i - 1) + raw[i]) }
}

/// The coefficients a first pass decodes to: the differences undone, and each moved up
/// by what its sub-band was quantized with.
pub open spec fn dequantized(raw: Seq<i16>, shift: Seq<u8>) -> Seq<i16> {
    Seq::new(
        COEFFS as nat,
        |i: int|
            wrap16(
                shifted(
                    if i < LL3_AT { raw[i] as int } else { summed(raw, i) as int },
                    shift[band_of(i)] as nat,
                ),
            ),
    )
}

/// What a first pass leaves a component holding.
pub open spec fn first_coefficients(raw: Seq<i16>, shift: Seq<u8>, diff: bool, current: Seq<i16>) -> Seq<i16> {
    let fresh = dequantized(raw, shift);
    if diff {
        Seq::new(COEFFS as nat, |i: int| clamp16_spec(fresh[i] + current[i]))
    } else {
        fresh
    }
}

/// One component of a first pass, and the samples it comes to, or `None` for a component
/// with no stream, whose precision alone has changed.
#[verifier::opaque]
pub open spec fn first_component(c: ComponentView, data: Seq<u8>, bitpos: Seq<u8>, diff: bool) -> (
    ComponentView,
    Option<Seq<i16>>,
) {
    if data.len() == 0 {
        (ComponentView { bitpos, ..c }, None)
    } else {
        let raw = rlgr1_spec(data, COEFFS as nat);
        let current = first_coefficients(raw, lowered(bitpos), diff, c.current);
        (ComponentView { current, sign: raw, bitpos }, Some(idwt_spec(current)))
    }
}

/// Where an upgrade stands: its two streams, and the component it is refining.
pub struct Refining {
    pub srl: SrlState,
    pub raw: int,
    pub current: Seq<i16>,
    pub sign: Seq<i16>,
}

/// One coefficient gains bits: from the raw stream where its sign is already known, and
/// from the SRL stream where it is not.
pub open spec fn refine_one(
    srl: Seq<u8>,
    raw: Seq<u8>,
    shift: Seq<u8>,
    bits: Seq<u8>,
    s: Refining,
    i: int,
) -> Refining {
    let n = bits[band_of(i)] as nat;
    let up = shift[band_of(i)] as nat;
    if n == 0 {
        s
    } else if i < LL3_AT && s.sign[i] == 0 {
        let (next, v) = srl_step(srl, s.srl, n);
        Refining {
            srl: next,
            raw: s.raw,
            current: s.current.update(i, wrap16(s.current[i] + shifted(v as int, up))),
            sign: s.sign.update(i, v),
        }
    } else {
        let read = number_at(raw, s.raw, n) as int;
        let v = if i < LL3_AT && s.sign[i] < 0 { -read } else { read };
        Refining {
            raw: past(raw, s.raw, n as int),
            current: s.current.update(i, wrap16(s.current[i] + shifted(v, up))),
            ..s
        }
    }
}

/// The first `n` coefficients refined, in order.
pub open spec fn refined(
    srl: Seq<u8>,
    raw: Seq<u8>,
    shift: Seq<u8>,
    bits: Seq<u8>,
    s: Refining,
    n: nat,
) -> Refining
    decreases n,
{
    if n == 0 {
        s
    } else {
        refine_one(srl, raw, shift, bits, refined(srl, raw, shift, bits, s, (n - 1) as nat), n - 1)
    }
}

/// One component of an upgrade, and the samples it comes to, or `None` for one that would
/// lose precision, which is left as it was. [MS-RDPEGFX] 3.3.8.3.
#[verifier::opaque]
pub open spec fn upgrade_component(c: ComponentView, srl: Seq<u8>, raw: Seq<u8>, bitpos: Seq<u8>) -> (
    ComponentView,
    Option<Seq<i16>>,
) {
    if !covers(c.bitpos, bitpos) {
        (c, None)
    } else {
        let start = Refining {
            srl: SrlState { at: 0, kp: 8, mode: false, nz: 0 },
            raw: 0,
            current: c.current,
            sign: c.sign,
        };
        let end = refined(
            srl,
            raw,
            lowered(bitpos),
            difference_of(c.bitpos, bitpos),
            start,
            COEFFS as nat,
        );
        (ComponentView { current: end.current, sign: end.sign, bitpos }, Some(idwt_spec(end.current)))
    }
}

/// What a bit position made of two tables is.
proof fn position_bounds(q: Seq<u8>, prog: Seq<u8>)
    requires
        usable(q),
        at_most(prog, 15),
    ensures
        at_most(sum_of(q, prog), 30),
        forall|i: int| 0 <= i < 10 ==> #[trigger] sum_of(q, prog)[i] >= 6,
{
}

/// Ten values of at least one.
pub open spec fn lowerable(q: Seq<u8>) -> bool {
    forall|i: int| 0 <= i < 10 ==> #[trigger] q[i] >= 1
}

impl Component {
    fn new() -> (c: Component)
        ensures
            c@ == blank_component(),
            c@.wf(),
    {
        let c = Component { current: zeros(COEFFS), sign: zeros(COEFFS), bitpos: Quant::zero() };
        c
    }

    fn first(&mut self, data: &[u8], bitpos: Quant, diff: bool) -> (res: Result<Vec<i16>, Malformed>)
        requires
            old(self)@.wf(),
            at_most(bitpos@, 30),
            lowerable(bitpos@),
            data@.len() <= MAX_STREAM,
        ensures
            final(self)@ == first_component(old(self)@, data@, bitpos@, diff).0,
            final(self)@.wf(),
            match res {
                Ok(samples) => first_component(old(self)@, data@, bitpos@, diff).1 == Some(samples@)
                    && samples@.len() == COEFFS,
                Err(e) => first_component(old(self)@, data@, bitpos@, diff).1 is None && e == refusal(
                    "an empty RLGR stream",
                    0,
                ),
            },
    {
        proof { reveal(first_component); }
        let shift = bitpos.lower();
        self.bitpos = bitpos;
        let raw = match rlgr1(data, COEFFS) {
            Ok(raw) => raw,
            Err(e) => {
                return Err(e);
            },
        };
        proof { rlgr_len(data@); }
        let ghost fresh = dequantized(raw@, shift@);
        let ghost held = self.current@;
        let mut out: Vec<i16> = Vec::with_capacity(COEFFS);
        let mut acc: i16 = 0;
        for i in 0..COEFFS
            invariant
                raw@.len() == COEFFS,
                self.current@ == held,
                held.len() == COEFFS,
                shift@.len() == 10,
                fresh == dequantized(raw@, shift@),
                i > LL3_AT ==> acc == summed(raw@, i - 1),
                out@.len() == i,
                forall|j: int| 0 <= j < i ==> out@[j] == first_coefficients(raw@, shift@, diff, held)[j],
        {
            let mut v: i16 = raw[i];
            if i >= LL3_AT {
                if i > LL3_AT {
                    v = to_i16(acc as i64 + v as i64);
                }
                acc = v;
            }
            let b: usize = band(i);
            let up: u8 = shift.0[b];
            let value: i16 = add_shifted(0, v as i64, up);
            assert(value == fresh[i as int]);
            if diff {
                out.push(clamp16(value as i32 + self.current[i] as i32));
            } else {
                out.push(value);
            }
        }
        assert(out@ =~= first_coefficients(raw@, shift@, diff, held));
        let samples = idwt(out.as_slice());
        self.current = out;
        self.sign = raw;
        Ok(samples)
    }
}

impl Component {
    fn upgrade(&mut self, srl: &[u8], raw: &[u8], bitpos: Quant) -> (res: Option<Vec<i16>>)
        requires
            old(self)@.wf(),
            at_most(bitpos@, 30),
            forall|i: int| 0 <= i < 10 ==> #[trigger] bitpos@[i] >= 6,
            srl@.len() <= MAX_STREAM,
            raw@.len() <= MAX_STREAM,
        ensures
            final(self)@ == upgrade_component(old(self)@, srl@, raw@, bitpos@).0,
            final(self)@.wf(),
            match res {
                Some(samples) => upgrade_component(old(self)@, srl@, raw@, bitpos@).1 == Some(samples@)
                    && samples@.len() == COEFFS,
                None => upgrade_component(old(self)@, srl@, raw@, bitpos@).1 is None,
            },
    {
        proof { reveal(upgrade_component); }
        let bits = match self.bitpos.minus(bitpos) {
            Some(bits) => bits,
            None => {
                return None;
            },
        };
        assert forall|i: int| 0 <= i < 10 implies #[trigger] bits@[i] <= 24 by {
            assert(self.bitpos@[i] <= 30 && bitpos@[i] >= 6);
        }
        let shift = bitpos.lower();
        let ghost start = Refining {
            srl: SrlState { at: 0, kp: 8, mode: false, nz: 0 },
            raw: 0,
            current: self.current@,
            sign: self.sign@,
        };
        let mut unknown = Srl { bits: Bits::new(srl), kp: 8, mode: false, nz: 0 };
        let mut known = Bits::new(raw);
        for i in 0..COEFFS
            invariant
                bits@.len() == 10,
                shift@.len() == 10,
                forall|k: int| 0 <= k < 10 ==> #[trigger] bits@[k] <= 24,
                unknown.wf(),
                unknown.bits.data() == srl@,
                known.data() == raw@,
                self.current@.len() == COEFFS,
                self.sign@.len() == COEFFS,
                (Refining {
                    srl: unknown.state(),
                    raw: known.at(),
                    current: self.current@,
                    sign: self.sign@,
                }) == refined(srl@, raw@, shift@, bits@, start, i as nat),
        {
            let b: usize = band(i);
            let n: u32 = bits.0[b] as u32;
            let up: u8 = shift.0[b];
            assert(n == bits@[b as int] && up == shift@[b as int]);
            proof {
                lemma2_to64();
                if n < 32 {
                    lemma_pow2_strictly_increases(n as nat, 32);
                }
            }
            if n > 0 {
                let held: i16 = self.current[i];
                let sign: i16 = self.sign[i];
                if i < LL3_AT && sign == 0 {
                    let v: i16 = unknown.read(n);
                    self.sign.set(i, v);
                    self.current.set(i, add_shifted(held, v as i64, up));
                } else {
                    let read: i64 = known.take(n) as i64;
                    let v: i64 = if i < LL3_AT && sign < 0 { -read } else { read };
                    self.current.set(i, add_shifted(held, v, up));
                }
            }
        }
        self.bitpos = bitpos;
        Some(idwt(self.current.as_slice()))
    }
}

/// A decoded component is a whole one.
proof fn rlgr_len(data: Seq<u8>)
    ensures
        rlgr1_spec(data, COEFFS as nat).len() == COEFFS,
{
    rlgr_bounded(data, super::rlgr::start(), COEFFS as nat);
}

proof fn rlgr_bounded(data: Seq<u8>, s: super::rlgr::Coding, len: nat)
    requires
        s.out.len() <= len,
    ensures
        super::rlgr::decoded(data, s, len).len() <= len,
    decreases len - s.out.len(),
{
    if s.at >= 8 * data.len() || s.out.len() >= len {
    } else {
        let next = if s.runs / 8 > 0 {
            super::rlgr::run_step(data, s, len)
        } else {
            super::rlgr::value_step(data, s)
        };
        match next {
            None => {},
            Some(s2) => {
                if s2.out.len() > s.out.len() {
                    rlgr_bounded(data, s2, len);
                }
            },
        }
    }
}

fn zeros(n: usize) -> (v: Vec<i16>)
    ensures
        v@ == Seq::new(n as nat, |i: int| 0i16),
{
    let mut v: Vec<i16> = Vec::with_capacity(n);
    for i in 0..n
        invariant
            v@ == Seq::new(i as nat, |j: int| 0i16),
    {
        v.push(0);
        assert(v@ =~= Seq::new((i + 1) as nat, |j: int| 0i16));
    }
    v
}

/// A component nothing has been decoded into.
pub open spec fn blank_component() -> ComponentView {
    ComponentView {
        current: Seq::new(COEFFS as nat, |i: int| 0i16),
        sign: Seq::new(COEFFS as nat, |i: int| 0i16),
        bitpos: Seq::new(10, |i: int| 0u8),
    }
}

/// One tile of one surface, as it stands between passes.
pub struct Tile {
    /// The tile's pixels, `BGRX32`, 64 rows of 64.
    pixels: Vec<u8>,
    y: Component,
    cb: Component,
    cr: Component,
    /// Whether a first or simple pass has landed; an upgrade needs one.
    started: bool,
    /// Decoded since it was last written to the surface.
    dirty: bool,
}

/// A [`Tile`] by its contents.
pub struct TileView {
    pub pixels: Seq<u8>,
    pub y: ComponentView,
    pub cb: ComponentView,
    pub cr: ComponentView,
    pub started: bool,
    pub dirty: bool,
}

impl TileView {
    pub open spec fn wf(self) -> bool {
        &&& self.pixels.len() == 4 * COEFFS
        &&& self.y.wf()
        &&& self.cb.wf()
        &&& self.cr.wf()
    }
}

impl View for Tile {
    type V = TileView;

    closed spec fn view(&self) -> TileView {
        TileView {
            pixels: self.pixels@,
            y: self.y@,
            cb: self.cb@,
            cr: self.cr@,
            started: self.started,
            dirty: self.dirty,
        }
    }
}

/// A tile nothing has been decoded into.
pub open spec fn blank_tile() -> TileView {
    TileView {
        pixels: Seq::new(4 * COEFFS as nat, |i: int| 0u8),
        y: blank_component(),
        cb: blank_component(),
        cr: blank_component(),
        started: false,
        dirty: false,
    }
}

/// The three components' streams or bit positions.
pub struct Three {
    pub y: Seq<u8>,
    pub cb: Seq<u8>,
    pub cr: Seq<u8>,
}

/// A first pass over a whole tile, and whether every component had a stream. One that
/// did not stops the pass where it is.
#[verifier::opaque]
pub open spec fn first_tile(t: TileView, data: Three, bitpos: Three, diff: bool) -> (TileView, bool) {
    let (y, ys) = first_component(t.y, data.y, bitpos.y, diff);
    let t = TileView { y, ..t };
    match ys {
        None => (t, false),
        Some(ys) => {
            let (cb, cbs) = first_component(t.cb, data.cb, bitpos.cb, diff);
            let t = TileView { cb, ..t };
            match cbs {
                None => (t, false),
                Some(cbs) => {
                    let (cr, crs) = first_component(t.cr, data.cr, bitpos.cr, diff);
                    let t = TileView { cr, ..t };
                    match crs {
                        None => (t, false),
                        Some(crs) => (
                            TileView { started: true, pixels: pixels_spec(ys, cbs, crs), ..t },
                            true,
                        ),
                    }
                },
            }
        },
    }
}

/// An upgrade of a whole tile, and whether every component kept its precision. One that
/// did not stops the upgrade where it is.
#[verifier::opaque]
pub open spec fn upgrade_tile(t: TileView, srl: Three, raw: Three, bitpos: Three) -> (TileView, bool) {
    let (y, ys) = upgrade_component(t.y, srl.y, raw.y, bitpos.y);
    let t = TileView { y, ..t };
    match ys {
        None => (t, false),
        Some(ys) => {
            let (cb, cbs) = upgrade_component(t.cb, srl.cb, raw.cb, bitpos.cb);
            let t = TileView { cb, ..t };
            match cbs {
                None => (t, false),
                Some(cbs) => {
                    let (cr, crs) = upgrade_component(t.cr, srl.cr, raw.cr, bitpos.cr);
                    let t = TileView { cr, ..t };
                    match crs {
                        None => (t, false),
                        Some(crs) => (TileView { pixels: pixels_spec(ys, cbs, crs), ..t }, true),
                    }
                },
            }
        },
    }
}

/// The bit positions a pass holds its components to.
struct Positions {
    y: Quant,
    cb: Quant,
    cr: Quant,
}

impl Positions {
    spec fn three(&self) -> Three {
        Three { y: self.y@, cb: self.cb@, cr: self.cr@ }
    }

    spec fn wf(&self) -> bool {
        &&& at_most(self.y@, 30) && at_most(self.cb@, 30) && at_most(self.cr@, 30)
        &&& forall|i: int| 0 <= i < 10 ==> #[trigger] self.y@[i] >= 6
        &&& forall|i: int| 0 <= i < 10 ==> #[trigger] self.cb@[i] >= 6
        &&& forall|i: int| 0 <= i < 10 ==> #[trigger] self.cr@[i] >= 6
    }
}

impl Tile {
    fn new() -> (t: Tile)
        ensures
            t@ == blank_tile(),
            t@.wf(),
    {
        let mut pixels: Vec<u8> = Vec::with_capacity(4 * COEFFS);
        for i in 0..4 * COEFFS
            invariant
                pixels@ == Seq::new(i as nat, |j: int| 0u8),
        {
            pixels.push(0);
            assert(pixels@ =~= Seq::new((i + 1) as nat, |j: int| 0u8));
        }
        Tile {
            pixels,
            y: Component::new(),
            cb: Component::new(),
            cr: Component::new(),
            started: false,
            dirty: false,
        }
    }

    fn first(&mut self, y: &[u8], cb: &[u8], cr: &[u8], at: &Positions, diff: bool) -> (res: Result<
        (),
        Malformed,
    >)
        requires
            old(self)@.wf(),
            at.wf(),
            y@.len() <= 0xFFFF,
            cb@.len() <= 0xFFFF,
            cr@.len() <= 0xFFFF,
        ensures
            final(self)@.wf(),
            ({
                let (t, ok) = first_tile(
                    old(self)@,
                    Three { y: y@, cb: cb@, cr: cr@ },
                    at.three(),
                    diff,
                );
                &&& final(self)@ == t
                &&& ok == res is Ok
            }),
            res matches Err(e) ==> e == refusal("an empty RLGR stream", 0),
            final(self)@.dirty == old(self)@.dirty,
    {
        proof { reveal(first_tile); }
        let ys = self.y.first(y, at.y, diff)?;
        let cbs = self.cb.first(cb, at.cb, diff)?;
        let crs = self.cr.first(cr, at.cr, diff)?;
        self.started = true;
        self.pixels = to_bgrx(ys.as_slice(), cbs.as_slice(), crs.as_slice());
        Ok(())
    }

    fn upgrade(&mut self, srl: [&[u8]; 3], raw: [&[u8]; 3], at: &Positions) -> (ok: bool)
        requires
            old(self)@.wf(),
            at.wf(),
            srl@[0]@.len() <= 0xFFFF,
            srl@[1]@.len() <= 0xFFFF,
            srl@[2]@.len() <= 0xFFFF,
            raw@[0]@.len() <= 0xFFFF,
            raw@[1]@.len() <= 0xFFFF,
            raw@[2]@.len() <= 0xFFFF,
        ensures
            final(self)@.wf(),
            upgrade_tile(
                old(self)@,
                Three { y: srl@[0]@, cb: srl@[1]@, cr: srl@[2]@ },
                Three { y: raw@[0]@, cb: raw@[1]@, cr: raw@[2]@ },
                at.three(),
            ) == (final(self)@, ok),
            final(self)@.dirty == old(self)@.dirty,
    {
        proof { reveal(upgrade_tile); }
        match self.y.upgrade(srl[0], raw[0], at.y) {
            None => false,
            Some(ys) => match self.cb.upgrade(srl[1], raw[1], at.cb) {
                None => false,
                Some(cbs) => match self.cr.upgrade(srl[2], raw[2], at.cr) {
                    None => false,
                    Some(crs) => {
                        self.pixels = to_bgrx(ys.as_slice(), cbs.as_slice(), crs.as_slice());
                        true
                    },
                },
            },
        }
    }
}

/// A surface's tiles, made as the host first draws each.
pub struct Grid {
    width: u32,
    height: u32,
    tiles: Vec<Option<Tile>>,
}

/// A [`Grid`] by its contents.
pub struct GridView {
    pub width: u32,
    pub height: u32,
    pub tiles: Seq<Option<TileView>>,
}

pub open spec fn tile_view(t: Option<Tile>) -> Option<TileView> {
    match t {
        Some(t) => Some(t@),
        None => None,
    }
}

/// How many tiles a side of this many pixels takes.
pub open spec fn tiles_along(side: u32) -> nat {
    ((side + 63) / 64) as nat
}

pub open spec fn tiles_in(width: u32, height: u32) -> nat {
    tiles_along(width) * tiles_along(height)
}

impl GridView {
    pub open spec fn wf(self) -> bool {
        &&& self.tiles.len() == tiles_in(self.width, self.height)
        &&& self.tiles.len() <= usize::MAX
        &&& forall|i: int|
            0 <= i < self.tiles.len() ==> match #[trigger] self.tiles[i] {
                Some(t) => t.wf(),
                None => true,
            }
    }

    pub open spec fn dirty(self, i: int) -> bool {
        match self.tiles[i] {
            Some(t) => t.dirty,
            None => false,
        }
    }

    /// Whether every tile that was decoded has been written out.
    pub open spec fn clean(self) -> bool {
        forall|i: int| 0 <= i < self.tiles.len() ==> !#[trigger] self.dirty(i)
    }

    /// Which tile is at these coordinates, counted in tiles.
    pub open spec fn index_of(self, x: u16, y: u16) -> Option<int> {
        let cols = tiles_along(self.width);
        if x < cols && y * cols + x < self.tiles.len() { Some(y * cols + x) } else { None }
    }

    pub open spec fn tile(self, i: int) -> TileView {
        match self.tiles[i] {
            Some(t) => t,
            None => blank_tile(),
        }
    }

    pub open spec fn with(self, i: int, t: TileView) -> GridView {
        GridView { tiles: self.tiles.update(i, Some(t)), ..self }
    }

    /// How many tiles have been made.
    pub open spec fn made(self) -> nat {
        made_below(self.tiles, self.tiles.len())
    }
}

/// How many of the first `n` tiles have been made.
pub open spec fn made_below(tiles: Seq<Option<TileView>>, n: nat) -> nat
    decreases n,
{
    if n == 0 {
        0
    } else {
        made_below(tiles, (n - 1) as nat) + if tiles[n - 1] is Some { 1nat } else { 0 }
    }
}

/// A tile put in a place adds one where there was none.
proof fn made_update(tiles: Seq<Option<TileView>>, i: int, t: TileView, n: nat)
    requires
        0 <= i < tiles.len(),
        n <= tiles.len(),
    ensures
        made_below(tiles.update(i, Some(t)), n) == made_below(tiles, n) + (if i < n && tiles[i] is None {
            1nat
        } else {
            0
        }),
    decreases n,
{
    if n > 0 {
        made_update(tiles, i, t, (n - 1) as nat);
    }
}

/// As many tiles are made as are there.
proof fn made_alike(a: Seq<Option<TileView>>, b: Seq<Option<TileView>>, n: nat)
    requires
        a.len() == b.len(),
        n <= a.len(),
        forall|i: int| 0 <= i < a.len() ==> (#[trigger] a[i] is Some) == (b[i] is Some),
    ensures
        made_below(a, n) == made_below(b, n),
    decreases n,
{
    if n > 0 {
        made_alike(a, b, (n - 1) as nat);
        assert((a[n - 1] is Some) == (b[n - 1] is Some));
    }
}

proof fn none_made(width: u32, height: u32, n: nat)
    requires
        n <= tiles_in(width, height),
    ensures
        made_below(new_grid(width, height).tiles, n) == 0,
    decreases n,
{
    if n > 0 {
        none_made(width, height, (n - 1) as nat);
    }
}

/// A grid no tile has been made of.
pub open spec fn new_grid(width: u32, height: u32) -> GridView {
    GridView { width, height, tiles: Seq::new(tiles_in(width, height), |i: int| None) }
}

impl View for Grid {
    type V = GridView;

    closed spec fn view(&self) -> GridView {
        GridView {
            width: self.width,
            height: self.height,
            tiles: Seq::new(self.tiles@.len(), |i: int| tile_view(self.tiles@[i])),
        }
    }
}

impl Grid {
    closed spec fn wf(&self) -> bool {
        self@.wf()
    }

    fn new(width: u32, height: u32) -> (g: Grid)
        requires
            tiles_in(width, height) <= usize::MAX,
        ensures
            g@ == new_grid(width, height),
            g.wf(),
            g@.clean(),
    {
        let cols: usize = ((width as u64 + 63) / 64) as usize;
        let rows: usize = ((height as u64 + 63) / 64) as usize;
        let mut tiles: Vec<Option<Tile>> = Vec::new();
        for i in 0..cols * rows
            invariant
                tiles@.len() == i,
                forall|j: int| 0 <= j < i ==> #[trigger] tiles@[j] is None,
        {
            tiles.push(None);
        }
        let g = Grid { width, height, tiles };
        assert(g@.tiles =~= new_grid(width, height).tiles);
        g
    }

    fn index(&self, x: u16, y: u16) -> (res: Option<usize>)
        requires
            self.wf(),
        ensures
            match res {
                Some(i) => self@.index_of(x, y) == Some(i as int) && i < self@.tiles.len(),
                None => self@.index_of(x, y) is None,
            },
    {
        let cols: u64 = (self.width as u64 + 63) / 64;
        proof {
            assert(0 <= y * cols <= 0xFFFF * 0x400_0000) by (nonlinear_arith)
                requires
                    0 <= y <= 0xFFFF,
                    0 <= cols <= 0x400_0000,
            ;
        }
        let at: u64 = y as u64 * cols + x as u64;
        if (x as u64) < cols && at < self.tiles.len() as u64 { Some(at as usize) } else { None }
    }

    /// Whether a tile has been made.
    fn has(&self, i: usize) -> (made: bool)
        requires
            i < self@.tiles.len(),
        ensures
            made == self@.tiles[i as int] is Some,
    {
        self.tiles[i].is_some()
    }

    /// Take a tile out to be worked on, made if it has not been.
    fn take(&mut self, i: usize) -> (t: Tile)
        requires
            old(self).wf(),
            i < old(self)@.tiles.len(),
        ensures
            t@ == old(self)@.tile(i as int),
            t@.wf(),
            final(self).wf(),
            final(self)@ == (GridView { tiles: old(self)@.tiles.update(i as int, None), ..old(self)@ }),
    {
        assert(self@.tiles[i as int] == tile_view(self.tiles@[i as int]));
        let mut slot: Option<Tile> = None;
        self.tiles.set_and_swap(i, &mut slot);
        assert(self@.tiles =~= old(self)@.tiles.update(i as int, None));
        match slot {
            Some(t) => t,
            None => Tile::new(),
        }
    }

    fn put(&mut self, i: usize, t: Tile)
        requires
            old(self).wf(),
            i < old(self)@.tiles.len(),
            t@.wf(),
        ensures
            final(self).wf(),
            final(self)@ == old(self)@.with(i as int, t@),
    {
        self.tiles.set(i, Some(t));
        assert(self@.tiles =~= old(self)@.tiles.update(i as int, Some(t@)));
    }

    fn count(&self) -> (n: usize)
        ensures
            n == self@.made(),
            n <= self@.tiles.len(),
    {
        let mut n: usize = 0;
        for i in 0..self.tiles.len()
            invariant
                self@.tiles.len() == self.tiles@.len(),
                n == made_below(self@.tiles, i as nat),
                n <= i,
        {
            assert(self@.tiles[i as int] == tile_view(self.tiles@[i as int]));
            if self.tiles[i].is_some() {
                n = n + 1;
            }
        }
        n
    }
}

/// What a region says about the tiles that follow it.
struct Region {
    /// The rectangles of the surface this region repaints; tiles are clipped to them.
    rects: Vec<Rect16>,
    quants: Vec<Quant>,
    prog: Vec<ProgQuant>,
}

/// A [`Region`] by its contents.
pub struct RegionView {
    pub rects: Seq<Rect16>,
    pub quants: Seq<Seq<u8>>,
    pub prog: Seq<ProgQuantView>,
}

impl RegionView {
    pub open spec fn wf(self) -> bool {
        &&& forall|i: int| 0 <= i < self.rects.len() ==> (#[trigger] self.rects[i]).ordered()
        &&& forall|i: int| 0 <= i < self.quants.len() ==> usable(#[trigger] self.quants[i])
        &&& forall|i: int| 0 <= i < self.prog.len() ==> (#[trigger] self.prog[i]).wf()
    }
}

spec fn quant_views(v: Seq<Quant>) -> Seq<Seq<u8>> {
    Seq::new(v.len(), |i: int| v[i]@)
}

spec fn prog_views(v: Seq<ProgQuant>) -> Seq<ProgQuantView> {
    Seq::new(v.len(), |i: int| v[i]@)
}

impl View for Region {
    type V = RegionView;

    closed spec fn view(&self) -> RegionView {
        RegionView {
            rects: self.rects@,
            quants: quant_views(self.quants@),
            prog: prog_views(self.prog@),
        }
    }
}

/// A rectangle as a region spells it: a corner, a width and a height.
pub open spec fn region_rect_step(c: Cursor) -> Step<Rect16> {
    match c.u16_le() {
        Step::Stop(e) => Step::Stop(e),
        Step::Got(x, c) => match c.u16_le() {
            Step::Stop(e) => Step::Stop(e),
            Step::Got(y, c) => match c.u16_le() {
                Step::Stop(e) => Step::Stop(e),
                Step::Got(w, c) => match c.u16_le() {
                    Step::Stop(e) => Step::Stop(e),
                    Step::Got(h, c) => if x + w > 0xFFFF {
                        Step::Stop(refusal("a region rectangle past 65535", w as u64))
                    } else if y + h > 0xFFFF {
                        Step::Stop(refusal("a region rectangle past 65535", h as u64))
                    } else {
                        Step::Got(
                            Rect16 { left: x, top: y, right: (x + w) as u16, bottom: (y + h) as u16 },
                            c,
                        )
                    },
                },
            },
        },
    }
}

fn region_rect(r: &mut Reader<'_>) -> (res: Result<Rect16, Malformed>)
    ensures
        steps(res, final(r)@, region_rect_step(old(r)@)),
        final(r)@.within(),
        res matches Ok(rect) ==> rect.ordered(),
{
    let x = r.u16_le()?;
    let y = r.u16_le()?;
    let w = r.u16_le()?;
    let h = r.u16_le()?;
    let right = match x.checked_add(w) {
        Some(right) => right,
        None => {
            return Err(refuse("a region rectangle past 65535", w as u64));
        },
    };
    let bottom = match y.checked_add(h) {
        Some(bottom) => bottom,
        None => {
            return Err(refuse("a region rectangle past 65535", h as u64));
        },
    };
    Ok(Rect16 { left: x, top: y, right, bottom })
}

/// `n` more rectangles of a region, after those already got.
pub open spec fn region_rects_step(c: Cursor, n: nat, got: Seq<Rect16>) -> Step<Seq<Rect16>>
    decreases n,
{
    if n == 0 {
        Step::Got(got, c)
    } else {
        match region_rect_step(c) {
            Step::Stop(e) => Step::Stop(e),
            Step::Got(rect, c) => region_rects_step(c, (n - 1) as nat, got.push(rect)),
        }
    }
}

fn region_rects(r: &mut Reader<'_>, count: u16) -> (res: Result<Vec<Rect16>, Malformed>)
    ensures
        view_steps(res, final(r)@, region_rects_step(old(r)@, count as nat, seq![])),
        final(r)@.within(),
        res matches Ok(rects) ==> forall|i: int| 0 <= i < rects@.len() ==> (#[trigger] rects@[i]).ordered(),
{
    let _ = r.at();
    let mut rects: Vec<Rect16> = Vec::new();
    assert(rects@ =~= seq![]);
    for i in 0..count
        invariant
            region_rects_step(old(r)@, count as nat, seq![]) == region_rects_step(
                r@,
                (count - i) as nat,
                rects@,
            ),
            r@.within(),
            forall|j: int| 0 <= j < rects@.len() ==> (#[trigger] rects@[j]).ordered(),
    {
        rects.push(region_rect(r)?);
    }
    Ok(rects)
}

/// `n` more quantization tables, after those already got.
pub open spec fn quants_step(c: Cursor, n: nat, got: Seq<Seq<u8>>) -> Step<Seq<Seq<u8>>>
    decreases n,
{
    if n == 0 {
        Step::Got(got, c)
    } else {
        match quant_step(c) {
            Step::Stop(e) => Step::Stop(e),
            Step::Got(q, c) => if !usable(q) {
                Step::Stop(refusal("a quantization value outside 6..=15", 0))
            } else {
                quants_step(c, (n - 1) as nat, got.push(q))
            },
        }
    }
}

fn read_quants(r: &mut Reader<'_>, count: u8) -> (res: Result<Vec<Quant>, Malformed>)
    ensures
        match res {
            Ok(v) => quants_step(old(r)@, count as nat, seq![]) == Step::Got(quant_views(v@), final(r)@),
            Err(e) => quants_step(old(r)@, count as nat, seq![]) == Step::<Seq<Seq<u8>>>::Stop(e),
        },
        final(r)@.within(),
        res matches Ok(v) ==> forall|i: int| 0 <= i < v@.len() ==> usable(#[trigger] quant_views(v@)[i]),
{
    let _ = r.at();
    let mut quants: Vec<Quant> = Vec::new();
    assert(quant_views(quants@) =~= seq![]);
    for i in 0..count
        invariant
            quants_step(old(r)@, count as nat, seq![]) == quants_step(
                r@,
                (count - i) as nat,
                quant_views(quants@),
            ),
            r@.within(),
            forall|j: int| 0 <= j < quants@.len() ==> usable(#[trigger] quant_views(quants@)[j]),
    {
        let quant = Quant::read(r)?;
        if !quant.is_usable() {
            return Err(refuse("a quantization value outside 6..=15", 0));
        }
        let ghost before = quant_views(quants@);
        quants.push(quant);
        assert(quant_views(quants@) =~= before.push(quant@));
    }
    Ok(quants)
}

/// `n` more progressive tables, after those already got.
pub open spec fn progs_step(c: Cursor, n: nat, got: Seq<ProgQuantView>) -> Step<Seq<ProgQuantView>>
    decreases n,
{
    if n == 0 {
        Step::Got(got, c)
    } else {
        match prog_step(c) {
            Step::Stop(e) => Step::Stop(e),
            Step::Got(q, c) => progs_step(c, (n - 1) as nat, got.push(q)),
        }
    }
}

fn read_progs(r: &mut Reader<'_>, count: u8) -> (res: Result<Vec<ProgQuant>, Malformed>)
    ensures
        match res {
            Ok(v) => progs_step(old(r)@, count as nat, seq![]) == Step::Got(prog_views(v@), final(r)@),
            Err(e) => progs_step(old(r)@, count as nat, seq![]) == Step::<Seq<ProgQuantView>>::Stop(e),
        },
        final(r)@.within(),
        res matches Ok(v) ==> forall|i: int| 0 <= i < v@.len() ==> (#[trigger] prog_views(v@)[i]).wf(),
{
    let _ = r.at();
    let mut progs: Vec<ProgQuant> = Vec::new();
    assert(prog_views(progs@) =~= seq![]);
    for i in 0..count
        invariant
            progs_step(old(r)@, count as nat, seq![]) == progs_step(
                r@,
                (count - i) as nat,
                prog_views(progs@),
            ),
            r@.within(),
            forall|j: int| 0 <= j < progs@.len() ==> (#[trigger] prog_views(progs@)[j]).wf(),
    {
        let prog = ProgQuant::read(r)?;
        let ghost before = prog_views(progs@);
        progs.push(prog);
        assert(prog_views(progs@) =~= before.push(prog@));
    }
    Ok(progs)
}

/// What opens a region: what it says of its tiles, how many there are, and their bytes.
pub open spec fn region_step(c: Cursor) -> Step<(RegionView, u16, Seq<u8>)> {
    match c.u8() {
        Step::Stop(e) => Step::Stop(e),
        Step::Got(tile, c) => if tile != TILE {
            Step::Stop(refusal("a region tile size", tile as u64))
        } else {
            match c.u16_le() {
                Step::Stop(e) => Step::Stop(e),
                Step::Got(num_rects, c) => match c.u8() {
                    Step::Stop(e) => Step::Stop(e),
                    Step::Got(num_quant, c) => match c.u8() {
                        Step::Stop(e) => Step::Stop(e),
                        Step::Got(num_prog, c) => match c.u8() {
                            Step::Stop(e) => Step::Stop(e),
                            Step::Got(flags, c) => match c.u16_le() {
                                Step::Stop(e) => Step::Stop(e),
                                Step::Got(num_tiles, c) => match c.u32_le() {
                                    Step::Stop(e) => Step::Stop(e),
                                    Step::Got(tile_bytes, c) => region_tables_step(
                                        c,
                                        num_rects,
                                        num_quant,
                                        num_prog,
                                        flags,
                                        num_tiles,
                                        tile_bytes,
                                    ),
                                },
                            },
                        },
                    },
                },
            }
        },
    }
}

/// A region's rectangles and tables, once it has said how many there are.
pub open spec fn region_tables_step(
    c: Cursor,
    num_rects: u16,
    num_quant: u8,
    num_prog: u8,
    flags: u8,
    num_tiles: u16,
    tile_bytes: u32,
) -> Step<(RegionView, u16, Seq<u8>)> {
    if num_rects == 0 {
        Step::Stop(refusal("a region without rectangles", num_rects as u64))
    } else if num_quant > 7 {
        Step::Stop(refusal("a region's quantization count", num_quant as u64))
    } else {
        match region_rects_step(c, num_rects as nat, seq![]) {
            Step::Stop(e) => Step::Stop(e),
            Step::Got(rects, c) => match quants_step(c, num_quant as nat, seq![]) {
                Step::Stop(e) => Step::Stop(e),
                Step::Got(quants, c) => match progs_step(c, num_prog as nat, seq![]) {
                    Step::Stop(e) => Step::Stop(e),
                    Step::Got(prog, c) => if flags & DWT_REDUCE_EXTRAPOLATE == 0 {
                        Step::Stop(
                            refusal("a region without the reduce-extrapolate flag", flags as u64),
                        )
                    } else {
                        match c.bytes(tile_bytes as int) {
                            Step::Stop(e) => Step::Stop(e),
                            Step::Got(tiles, c) => Step::Got(
                                (RegionView { rects, quants, prog }, num_tiles, tiles),
                                c,
                            ),
                        }
                    },
                },
            },
        }
    }
}

/// Read a region's header, its rectangles and its quantization tables.
fn region_header<'a>(r: &mut Reader<'a>) -> (res: Result<(Region, u16, &'a [u8]), Malformed>)
    ensures
        match res {
            Ok((region, count, tiles)) => region_step(old(r)@) == Step::Got(
                (region@, count, tiles@),
                final(r)@,
            ) && region@.wf(),
            Err(e) => region_step(old(r)@) == Step::<(RegionView, u16, Seq<u8>)>::Stop(e),
        },
        final(r)@.within(),
{
    let tile = r.u8()?;
    if tile as usize != TILE {
        return Err(refuse("a region tile size", tile as u64));
    }
    let num_rects = r.u16_le()?;
    let num_quant = r.u8()?;
    let num_prog = r.u8()?;
    let flags = r.u8()?;
    let num_tiles = r.u16_le()?;
    let tile_bytes = r.u32_le()?;
    if num_rects == 0 {
        return Err(refuse("a region without rectangles", num_rects as u64));
    }
    if num_quant > 7 {
        return Err(refuse("a region's quantization count", num_quant as u64));
    }
    let rects = region_rects(r, num_rects)?;
    let quants = read_quants(r, num_quant)?;
    let prog = read_progs(r, num_prog)?;
    if flags & DWT_REDUCE_EXTRAPOLATE == 0 {
        // The classic RemoteFX wavelet; not what a modern host sends.
        return Err(refuse("a region without the reduce-extrapolate flag", flags as u64));
    }
    let tiles = r.bytes(tile_bytes as usize)?;
    Ok((Region { rects, quants, prog }, num_tiles, tiles))
}

/// The fields every tile kind opens with.
#[derive(Clone, Copy)]
pub struct TileHeader {
    pub quant_y: u8,
    pub quant_cb: u8,
    pub quant_cr: u8,
    pub x: u16,
    pub y: u16,
}

impl TileHeader {
    /// Where the tile is, as one number.
    pub open spec fn place(self) -> u64 {
        (self.x * 0x1_0000 + self.y) as u64
    }
}

pub open spec fn tile_header_step(c: Cursor) -> Step<TileHeader> {
    match c.u8() {
        Step::Stop(e) => Step::Stop(e),
        Step::Got(quant_y, c) => match c.u8() {
            Step::Stop(e) => Step::Stop(e),
            Step::Got(quant_cb, c) => match c.u8() {
                Step::Stop(e) => Step::Stop(e),
                Step::Got(quant_cr, c) => match c.u16_le() {
                    Step::Stop(e) => Step::Stop(e),
                    Step::Got(x, c) => match c.u16_le() {
                        Step::Stop(e) => Step::Stop(e),
                        Step::Got(y, c) => Step::Got(
                            TileHeader { quant_y, quant_cb, quant_cr, x, y },
                            c,
                        ),
                    },
                },
            },
        },
    }
}

fn tile_header(r: &mut Reader<'_>) -> (res: Result<TileHeader, Malformed>)
    ensures
        steps(res, final(r)@, tile_header_step(old(r)@)),
        final(r)@.within(),
{
    let quant_y = r.u8()?;
    let quant_cb = r.u8()?;
    let quant_cr = r.u8()?;
    let x = r.u16_le()?;
    let y = r.u16_le()?;
    Ok(TileHeader { quant_y, quant_cb, quant_cr, x, y })
}

/// The three components' bit positions: the tables the tile's header names, under what
/// the tile's quality holds back.
pub open spec fn positions_spec(region: RegionView, h: TileHeader, quality: u8) -> Result<Three, Malformed> {
    if h.quant_y >= region.quants.len() {
        Err(refusal("a tile's quantization index", h.quant_y as u64))
    } else if h.quant_cb >= region.quants.len() {
        Err(refusal("a tile's quantization index", h.quant_cb as u64))
    } else if h.quant_cr >= region.quants.len() {
        Err(refusal("a tile's quantization index", h.quant_cr as u64))
    } else if quality != WHOLE_QUALITY && quality >= region.prog.len() {
        Err(refusal("a tile's quality index", quality as u64))
    } else {
        let prog = if quality == WHOLE_QUALITY { nothing_held() } else { region.prog[quality as int] };
        Ok(
            Three {
                y: sum_of(region.quants[h.quant_y as int], prog.y),
                cb: sum_of(region.quants[h.quant_cb as int], prog.cb),
                cr: sum_of(region.quants[h.quant_cr as int], prog.cr),
            },
        )
    }
}

impl Region {
    fn quant(&self, index: u8) -> (res: Result<Quant, Malformed>)
        ensures
            match res {
                Ok(q) => index < self@.quants.len() && q@ == self@.quants[index as int],
                Err(e) => index >= self@.quants.len() && e == refusal(
                    "a tile's quantization index",
                    index as u64,
                ),
            },
    {
        if (index as usize) < self.quants.len() {
            assert(self@.quants[index as int] == self.quants@[index as int]@);
            Ok(self.quants[index as usize])
        } else {
            Err(refuse("a tile's quantization index", index as u64))
        }
    }

    fn positions(&self, h: &TileHeader, quality: u8) -> (res: Result<Positions, Malformed>)
        requires
            self@.wf(),
        ensures
            match res {
                Ok(at) => positions_spec(self@, *h, quality) == Ok::<Three, Malformed>(at.three())
                    && at.wf(),
                Err(e) => positions_spec(self@, *h, quality) == Err::<Three, Malformed>(e),
            },
    {
        let y = self.quant(h.quant_y)?;
        let cb = self.quant(h.quant_cb)?;
        let cr = self.quant(h.quant_cr)?;
        let prog = if quality == WHOLE_QUALITY {
            ProgQuant { y: Quant::zero(), cb: Quant::zero(), cr: Quant::zero() }
        } else if (quality as usize) < self.prog.len() {
            assert(self@.prog[quality as int] == self.prog@[quality as int]@);
            self.prog[quality as usize]
        } else {
            return Err(refuse("a tile's quality index", quality as u64));
        };
        proof {
            position_bounds(y@, prog.y@);
            position_bounds(cb@, prog.cb@);
            position_bounds(cr@, prog.cr@);
        }
        Ok(Positions { y: y.plus(prog.y), cb: cb.plus(prog.cb), cr: cr.plus(prog.cr) })
    }
}

/// Where a region stands: its surface's tiles, how many more may be made, and those
/// decoded and not yet written out, in the order they were first decoded.
pub struct PassView {
    pub grid: GridView,
    pub room: nat,
    pub touched: Seq<int>,
}

impl PassView {
    pub open spec fn wf(self) -> bool {
        &&& self.grid.wf()
        &&& forall|k: int|
            0 <= k < self.touched.len() ==> 0 <= #[trigger] self.touched[k] < self.grid.tiles.len()
        &&& forall|k: int|
            0 <= k < self.touched.len() ==> self.grid.dirty(#[trigger] self.touched[k])
        &&& forall|i: int|
            0 <= i < self.grid.tiles.len() && #[trigger] self.grid.dirty(i) ==> self.touched.contains(i)
    }

    /// The tile is there to be worked on, made if it was not.
    pub open spec fn opened(self, i: int) -> PassView {
        PassView {
            grid: self.grid.with(i, self.grid.tile(i)),
            room: if self.grid.tiles[i] is None { (self.room - 1) as nat } else { self.room },
            touched: self.touched,
        }
    }

    /// The tile was worked on, without coming to anything that can be shown.
    pub open spec fn left_at(self, i: int, t: TileView) -> PassView {
        PassView { grid: self.grid.with(i, t), ..self }
    }

    /// The tile was decoded.
    pub open spec fn decoded(self, i: int, t: TileView) -> PassView {
        PassView {
            grid: self.grid.with(i, TileView { dirty: true, ..t }),
            touched: if t.dirty { self.touched } else { self.touched.push(i) },
            ..self
        }
    }
}

/// What a first pass's tile carries after its header.
pub struct FirstFields {
    pub flags: u8,
    pub quality: u8,
    pub data: Three,
}

/// Three streams of these lengths.
pub open spec fn three_step(c: Cursor, y: u16, cb: u16, cr: u16) -> Step<Three> {
    match c.bytes(y as int) {
        Step::Stop(e) => Step::Stop(e),
        Step::Got(y, c) => match c.bytes(cb as int) {
            Step::Stop(e) => Step::Stop(e),
            Step::Got(cb, c) => match c.bytes(cr as int) {
                Step::Stop(e) => Step::Stop(e),
                Step::Got(cr, c) => Step::Got(Three { y, cb, cr }, c),
            },
        },
    }
}

pub open spec fn first_lengths_step(c: Cursor, flags: u8, quality: u8) -> Step<FirstFields> {
    match c.u16_le() {
        Step::Stop(e) => Step::Stop(e),
        Step::Got(y, c) => match c.u16_le() {
            Step::Stop(e) => Step::Stop(e),
            Step::Got(cb, c) => match c.u16_le() {
                Step::Stop(e) => Step::Stop(e),
                Step::Got(cr, c) => match c.u16_le() {
                    Step::Stop(e) => Step::Stop(e),
                    Step::Got(tail, c) => match three_step(c, y, cb, cr) {
                        Step::Stop(e) => Step::Stop(e),
                        Step::Got(data, c) => match c.bytes(tail as int) {
                            Step::Stop(e) => Step::Stop(e),
                            Step::Got(_, c) => Step::Got(FirstFields { flags, quality, data }, c),
                        },
                    },
                },
            },
        },
    }
}

#[verifier::opaque]
pub open spec fn first_fields_step(c: Cursor, simple: bool) -> Step<FirstFields> {
    match c.u8() {
        Step::Stop(e) => Step::Stop(e),
        Step::Got(flags, c) => if simple {
            first_lengths_step(c, flags, WHOLE_QUALITY)
        } else {
            match c.u8() {
                Step::Stop(e) => Step::Stop(e),
                Step::Got(quality, c) => first_lengths_step(c, flags, quality),
            }
        },
    }
}

/// What an upgrade's tile carries after its header.
pub struct UpgradeFields {
    pub quality: u8,
    pub srl: Three,
    pub raw: Three,
}

/// Six streams, each component's SRL and raw in turn, of these lengths.
pub open spec fn six_step(c: Cursor, quality: u8, l: Seq<u16>) -> Step<UpgradeFields> {
    match c.bytes(l[0] as int) {
        Step::Stop(e) => Step::Stop(e),
        Step::Got(a, c) => match c.bytes(l[1] as int) {
            Step::Stop(e) => Step::Stop(e),
            Step::Got(b, c) => match three_step(c, l[2], l[3], l[4]) {
                Step::Stop(e) => Step::Stop(e),
                Step::Got(three, c) => match c.bytes(l[5] as int) {
                    Step::Stop(e) => Step::Stop(e),
                    Step::Got(f, c) => Step::Got(
                        UpgradeFields {
                            quality,
                            srl: Three { y: a, cb: three.y, cr: three.cr },
                            raw: Three { y: b, cb: three.cb, cr: f },
                        },
                        c,
                    ),
                },
            },
        },
    }
}

#[verifier::opaque]
pub open spec fn upgrade_fields_step(c: Cursor) -> Step<UpgradeFields> {
    match c.u8() {
        Step::Stop(e) => Step::Stop(e),
        Step::Got(quality, c) => match c.u16_le() {
            Step::Stop(e) => Step::Stop(e),
            Step::Got(l0, c) => match c.u16_le() {
                Step::Stop(e) => Step::Stop(e),
                Step::Got(l1, c) => match c.u16_le() {
                    Step::Stop(e) => Step::Stop(e),
                    Step::Got(l2, c) => match c.u16_le() {
                        Step::Stop(e) => Step::Stop(e),
                        Step::Got(l3, c) => match c.u16_le() {
                            Step::Stop(e) => Step::Stop(e),
                            Step::Got(l4, c) => match c.u16_le() {
                                Step::Stop(e) => Step::Stop(e),
                                Step::Got(l5, c) => six_step(
                                    c,
                                    quality,
                                    seq![l0, l1, l2, l3, l4, l5],
                                ),
                            },
                        },
                    },
                },
            },
        },
    }
}

/// A first pass over the tile a header names, where `t` is the tile as it stands: the
/// tile as it is left, and where its block ends or what was wrong with it.
#[verifier::opaque]
pub open spec fn first_spec(c: Cursor, simple: bool, region: RegionView, h: TileHeader, t: TileView) -> (
    TileView,
    Result<Cursor, Malformed>,
) {
    match first_fields_step(c, simple) {
        Step::Stop(e) => (t, Err(e)),
        Step::Got(f, c) => match positions_spec(region, h, f.quality) {
            Err(e) => (t, Err(e)),
            Ok(at) => {
                let (t, ok) = first_tile(t, f.data, at, f.flags & TILE_DIFFERENCE != 0);
                if ok { (t, Ok(c)) } else { (t, Err(refusal("an empty RLGR stream", 0))) }
            },
        },
    }
}

/// An upgrade of the tile a header names, where `t` is the tile as it stands.
#[verifier::opaque]
pub open spec fn upgrade_spec(c: Cursor, region: RegionView, h: TileHeader, t: TileView) -> (
    TileView,
    Result<Cursor, Malformed>,
) {
    match upgrade_fields_step(c) {
        Step::Stop(e) => (t, Err(e)),
        Step::Got(f, c) => if !t.started {
            (t, Err(refusal("an upgrade of a tile with no first pass", h.place())))
        } else {
            match positions_spec(region, h, f.quality) {
                Err(e) => (t, Err(e)),
                Ok(at) => {
                    let (t, ok) = upgrade_tile(t, f.srl, f.raw, at);
                    if ok {
                        (t, Ok(c))
                    } else {
                        (t, Err(refusal("an upgrade below the pass before it", f.quality as u64)))
                    }
                },
            }
        },
    }
}

/// One tile block of a region: the region as it is left, and whether the block was all
/// it should be.
pub open spec fn tile_block_spec(kind: u16, body: Seq<u8>, region: RegionView, p: PassView) -> (
    PassView,
    Result<(), Malformed>,
) {
    if kind != WBT_TILE_SIMPLE && kind != WBT_TILE_FIRST && kind != WBT_TILE_UPGRADE {
        (p, Err(refusal("a tile block type", kind as u64)))
    } else {
        match tile_header_step(cursor(WHAT, body)) {
            Step::Stop(e) => (p, Err(e)),
            Step::Got(h, c) => match p.grid.index_of(h.x, h.y) {
                None => (p, Err(refusal("a tile outside its surface", h.place()))),
                Some(i) => if p.grid.tiles[i] is None && p.room == 0 {
                    (p, Err(refusal("a tile more than this client will hold, at", h.place())))
                } else {
                    let p = p.opened(i);
                    let (t, res) = if kind == WBT_TILE_UPGRADE {
                        upgrade_spec(c, region, h, p.grid.tile(i))
                    } else {
                        first_spec(c, kind == WBT_TILE_SIMPLE, region, h, p.grid.tile(i))
                    };
                    match res {
                        Err(e) => (p.left_at(i, t), Err(e)),
                        Ok(c) => if c.left() != 0 {
                            (
                                p.decoded(i, t),
                                Err(refusal("a tile block with bytes past its fields", kind as u64)),
                            )
                        } else {
                            (p.decoded(i, t), Ok(()))
                        },
                    }
                },
            },
        }
    }
}

/// A block's type and what is in it: the length on the wire counts the six bytes of the
/// two fields before it.
pub open spec fn block_step(c: Cursor, field: &'static str) -> Step<(u16, Seq<u8>)> {
    match c.u16_le() {
        Step::Stop(e) => Step::Stop(e),
        Step::Got(kind, c) => match c.u32_le() {
            Step::Stop(e) => Step::Stop(e),
            Step::Got(len, c) => if len < 6 {
                Step::Stop(refusal(field, len as u64))
            } else {
                match c.bytes(len - 6) {
                    Step::Stop(e) => Step::Stop(e),
                    Step::Got(body, c) => Step::Got((kind, body), c),
                }
            },
        },
    }
}

fn read_block<'a>(r: &mut Reader<'a>, field: &'static str) -> (res: Result<(u16, &'a [u8]), Malformed>)
    ensures
        match res {
            Ok((kind, body)) => block_step(old(r)@, field) == Step::Got((kind, body@), final(r)@)
                && final(r)@.left() < old(r)@.left(),
            Err(e) => block_step(old(r)@, field) == Step::<(u16, Seq<u8>)>::Stop(e),
        },
        final(r)@.within(),
{
    let kind = r.u16_le()?;
    let len = r.u32_le()?;
    if len < 6 {
        return Err(refuse(field, len as u64));
    }
    let body = r.bytes((len - 6) as usize)?;
    Ok((kind, body))
}

/// The tile blocks of a region from `c` on, counted in sixteen bits after `count` that
/// came before.
pub open spec fn tile_blocks_spec(c: Cursor, region: RegionView, p: PassView, count: u16) -> (
    PassView,
    Result<u16, Malformed>,
)
    decreases c.left(),
{
    if c.left() == 0 {
        (p, Ok(count))
    } else {
        match block_step(c, "a tile block length") {
            Step::Stop(e) => (p, Err(e)),
            Step::Got((kind, body), next) => {
                let (p, res) = tile_block_spec(kind, body, region, p);
                match res {
                    Err(e) => (p, Err(e)),
                    Ok(_) => if next.left() < c.left() {
                        tile_blocks_spec(
                            next,
                            region,
                            p,
                            if count == 0xFFFF { 0 } else { (count + 1) as u16 },
                        )
                    } else {
                        (p, Ok(count))
                    },
                }
            },
        }
    }
}

/// The tiles of a region, which have to be as many as it said.
pub open spec fn region_tiles_spec(region: RegionView, count: u16, tiles: Seq<u8>, p: PassView) -> (
    PassView,
    Result<(), Malformed>,
) {
    let (p, res) = tile_blocks_spec(cursor(WHAT, tiles), region, p, 0);
    match res {
        Err(e) => (p, Err(e)),
        Ok(found) => if found != count {
            (p, Err(refusal("a region's tile count", count as u64)))
        } else {
            (p, Ok(()))
        },
    }
}

/// A region being decoded.
struct Pass {
    grid: Grid,
    room: u64,
    touched: Vec<usize>,
}

impl View for Pass {
    type V = PassView;

    closed spec fn view(&self) -> PassView {
        PassView {
            grid: self.grid@,
            room: self.room as nat,
            touched: Seq::new(self.touched@.len(), |k: int| self.touched@[k] as int),
        }
    }
}

/// What a first pass's tile carries after its header, read.
struct Samples<'a> {
    flags: u8,
    quality: u8,
    y: &'a [u8],
    cb: &'a [u8],
    cr: &'a [u8],
}

impl<'a> Samples<'a> {
    spec fn fields(&self) -> FirstFields {
        FirstFields {
            flags: self.flags,
            quality: self.quality,
            data: Three { y: self.y@, cb: self.cb@, cr: self.cr@ },
        }
    }

    spec fn short(&self) -> bool {
        self.y@.len() <= 0xFFFF && self.cb@.len() <= 0xFFFF && self.cr@.len() <= 0xFFFF
    }

    #[verifier::rlimit(60)]
    fn read(r: &mut Reader<'a>, simple: bool) -> (res: Result<Samples<'a>, Malformed>)
        ensures
            match res {
                Ok(s) => first_fields_step(old(r)@, simple) == Step::Got(s.fields(), final(r)@) && s.short(),
                Err(e) => first_fields_step(old(r)@, simple) == Step::<FirstFields>::Stop(e),
            },
            final(r)@.within(),
    {
        proof { reveal(first_fields_step); }
        let flags = r.u8()?;
        let quality = if simple { WHOLE_QUALITY } else { r.u8()? };
        let y_len = r.u16_le()?;
        let cb_len = r.u16_le()?;
        let cr_len = r.u16_le()?;
        let tail = r.u16_le()?;
        let y = r.bytes(y_len as usize)?;
        let cb = r.bytes(cb_len as usize)?;
        let cr = r.bytes(cr_len as usize)?;
        r.bytes(tail as usize)?;
        Ok(Samples { flags, quality, y, cb, cr })
    }
}

fn read_first(r: &mut Reader<'_>, simple: bool, region: &Region, h: &TileHeader, t: &mut Tile) -> (res: Result<
    (),
    Malformed,
>)
    requires
        region@.wf(),
        old(t)@.wf(),
    ensures
        final(t)@.wf(),
        final(t)@.dirty == old(t)@.dirty,
        final(t)@ == first_spec(old(r)@, simple, region@, *h, old(t)@).0,
        match res {
            Ok(_) => first_spec(old(r)@, simple, region@, *h, old(t)@).1 == Ok::<Cursor, Malformed>(
                final(r)@,
            ),
            Err(e) => first_spec(old(r)@, simple, region@, *h, old(t)@).1 == Err::<Cursor, Malformed>(e),
        },
        final(r)@.within(),
{
    proof { reveal(first_spec); }
    let f = Samples::read(r, simple)?;
    let at = region.positions(h, f.quality)?;
    t.first(f.y, f.cb, f.cr, &at, f.flags & TILE_DIFFERENCE != 0)
}

/// What an upgrade's tile carries after its header, read.
struct Streams<'a> {
    quality: u8,
    srl: [&'a [u8]; 3],
    raw: [&'a [u8]; 3],
}

impl<'a> Streams<'a> {
    spec fn fields(&self) -> UpgradeFields {
        UpgradeFields {
            quality: self.quality,
            srl: Three { y: self.srl@[0]@, cb: self.srl@[1]@, cr: self.srl@[2]@ },
            raw: Three { y: self.raw@[0]@, cb: self.raw@[1]@, cr: self.raw@[2]@ },
        }
    }

    spec fn short(&self) -> bool {
        &&& self.srl@[0]@.len() <= 0xFFFF && self.srl@[1]@.len() <= 0xFFFF && self.srl@[2]@.len() <= 0xFFFF
        &&& self.raw@[0]@.len() <= 0xFFFF && self.raw@[1]@.len() <= 0xFFFF && self.raw@[2]@.len() <= 0xFFFF
    }

    #[verifier::rlimit(60)]
    fn read(r: &mut Reader<'a>) -> (res: Result<Streams<'a>, Malformed>)
        ensures
            match res {
                Ok(s) => upgrade_fields_step(old(r)@) == Step::Got(s.fields(), final(r)@) && s.short(),
                Err(e) => upgrade_fields_step(old(r)@) == Step::<UpgradeFields>::Stop(e),
            },
            final(r)@.within(),
    {
        proof { reveal(upgrade_fields_step); }
        let quality = r.u8()?;
        let l0 = r.u16_le()?;
        let l1 = r.u16_le()?;
        let l2 = r.u16_le()?;
        let l3 = r.u16_le()?;
        let l4 = r.u16_le()?;
        let l5 = r.u16_le()?;
        let y_srl = r.bytes(l0 as usize)?;
        let y_raw = r.bytes(l1 as usize)?;
        let cb_srl = r.bytes(l2 as usize)?;
        let cb_raw = r.bytes(l3 as usize)?;
        let cr_srl = r.bytes(l4 as usize)?;
        let cr_raw = r.bytes(l5 as usize)?;
        Ok(Streams { quality, srl: [y_srl, cb_srl, cr_srl], raw: [y_raw, cb_raw, cr_raw] })
    }
}

fn read_upgrade(r: &mut Reader<'_>, region: &Region, h: &TileHeader, t: &mut Tile) -> (res: Result<
    (),
    Malformed,
>)
    requires
        region@.wf(),
        old(t)@.wf(),
    ensures
        final(t)@.wf(),
        final(t)@.dirty == old(t)@.dirty,
        final(t)@ == upgrade_spec(old(r)@, region@, *h, old(t)@).0,
        match res {
            Ok(_) => upgrade_spec(old(r)@, region@, *h, old(t)@).1 == Ok::<Cursor, Malformed>(final(r)@),
            Err(e) => upgrade_spec(old(r)@, region@, *h, old(t)@).1 == Err::<Cursor, Malformed>(e),
        },
        final(r)@.within(),
{
    proof { reveal(upgrade_spec); }
    let f = Streams::read(r)?;
    if !t.started {
        let place: u64 = h.x as u64 * 0x1_0000 + h.y as u64;
        return Err(refuse("an upgrade of a tile with no first pass", place));
    }
    let at = region.positions(h, f.quality)?;
    if !t.upgrade(f.srl, f.raw, &at) {
        return Err(refuse("an upgrade below the pass before it", f.quality as u64));
    }
    Ok(())
}

impl Pass {
    spec fn wf(&self) -> bool {
        self.grid.wf() && self@.wf()
    }

    spec fn sized_as(&self, other: Pass) -> bool {
        self@.grid.width == other@.grid.width && self@.grid.height == other@.grid.height
    }

    /// Tiles made and tiles that may still be made, together.
    spec fn allowance(&self) -> nat {
        self@.grid.made() + self@.room
    }

    /// Every rectangle repainted so far lies inside the surface.
    spec fn framed(&self, paints: Seq<Paint>) -> bool {
        all_fit(paint_views(paints), self@.grid.width, self@.grid.height)
    }

    fn tile_block(&mut self, kind: u16, body: &[u8], region: &Region) -> (res: Result<(), Malformed>)
        requires
            old(self).wf(),
            region@.wf(),
        ensures
            final(self).wf(),
            final(self).sized_as(*old(self)),
            final(self).allowance() == old(self).allowance(),
            tile_block_spec(kind, body@, region@, old(self)@) == (final(self)@, res),
    {
        if kind != WBT_TILE_SIMPLE && kind != WBT_TILE_FIRST && kind != WBT_TILE_UPGRADE {
            return Err(refuse("a tile block type", kind as u64));
        }
        let mut r = Reader::new(WHAT, body);
        let h = tile_header(&mut r)?;
        let place: u64 = h.x as u64 * 0x1_0000 + h.y as u64;
        let i: usize = match self.grid.index(h.x, h.y) {
            Some(i) => i,
            None => {
                return Err(refuse("a tile outside its surface", place));
            },
        };
        if !self.grid.has(i) {
            if self.room == 0 {
                return Err(refuse("a tile more than this client will hold, at", place));
            }
            self.room = self.room - 1;
        }
        let ghost opened = old(self)@.opened(i as int);
        let mut t = self.grid.take(i);
        let res = if kind == WBT_TILE_UPGRADE {
            read_upgrade(&mut r, region, &h, &mut t)
        } else {
            read_first(&mut r, kind == WBT_TILE_SIMPLE, region, &h, &mut t)
        };
        let ghost done = t@;
        if res.is_ok() && !t.dirty {
            t.dirty = true;
            self.touched.push(i);
        }
        self.grid.put(i, t);
        proof {
            let before = old(self)@;
            assert(opened.grid.tiles[i as int] == Some(before.grid.tile(i as int)));
            assert(done.dirty == before.grid.dirty(i as int));
            made_update(before.grid.tiles, i as int, self@.grid.tiles[i as int]->0, before.grid.tiles.len());
            assert(self@.grid.tiles =~= before.grid.tiles.update(i as int, self@.grid.tiles[i as int]));
            if res is Ok {
                assert(self@.touched =~= opened.decoded(i as int, done).touched);
                assert(self@.grid.tiles =~= opened.decoded(i as int, done).grid.tiles);
                assert(self@ == opened.decoded(i as int, done));
            } else {
                assert(self@.touched =~= before.touched);
                assert(self@.grid.tiles =~= opened.left_at(i as int, done).grid.tiles);
                assert(self@ == opened.left_at(i as int, done));
            }
            assert(self@.wf()) by {
                assert forall|k: int| 0 <= k < self@.touched.len() implies 0 <= #[trigger] self@.touched[k]
                    < self@.grid.tiles.len() && self@.grid.dirty(self@.touched[k]) by {
                    if k < before.touched.len() {
                        assert(self@.touched[k] == before.touched[k]);
                        assert(before.grid.dirty(before.touched[k]));
                    }
                }
                assert forall|j: int| 0 <= j < self@.grid.tiles.len() && #[trigger] self@.grid.dirty(
                    j,
                ) implies self@.touched.contains(j) by {
                    if j == i && !before.grid.dirty(j) {
                        assert(self@.touched[self@.touched.len() - 1] == j);
                    } else {
                        assert(before.grid.dirty(j));
                        let k = before.touched.index_of(j);
                        assert(before.touched[k] == j);
                        assert(self@.touched[k] == j);
                    }
                }
            }
        }
        res?;
        if !r.is_empty() {
            return Err(refuse("a tile block with bytes past its fields", kind as u64));
        }
        Ok(())
    }
}

/// A rectangle of a surface that was repainted: its pixels, `BGRX32`, in rows packed
/// tight, top row first.
pub struct Paint {
    pub rect: Rect16,
    pub pixels: Vec<u8>,
}

/// A [`Paint`] by its contents.
pub struct PaintView {
    pub rect: Rect16,
    pub pixels: Seq<u8>,
}

impl View for Paint {
    type V = PaintView;

    open spec fn view(&self) -> PaintView {
        PaintView { rect: self.rect, pixels: self.pixels@ }
    }
}

pub open spec fn paint_views(paints: Seq<Paint>) -> Seq<PaintView> {
    Seq::new(paints.len(), |i: int| paints[i]@)
}

/// `n` rows of a tile, `width` pixels each, from `x` across and `y` down.
pub open spec fn window(pixels: Seq<u8>, x: int, y: int, width: int, n: nat) -> Seq<u8>
    decreases n,
{
    if n == 0 {
        seq![]
    } else {
        let at = (y + n - 1) * TILE_STRIDE + x * 4;
        window(pixels, x, y, width, (n - 1) as nat) + pixels.subrange(at, at + width * 4)
    }
}

pub open spec fn lesser(a: int, b: int) -> int {
    if a < b { a } else { b }
}

pub open spec fn greater(a: int, b: int) -> int {
    if a > b { a } else { b }
}

/// What one rectangle of a region shows of a tile whose corner is at (`tx`, `ty`) of a
/// surface `width` by `height`: nothing, where they do not meet.
pub open spec fn tile_paint(
    pixels: Seq<u8>,
    tx: int,
    ty: int,
    width: u32,
    height: u32,
    rect: Rect16,
) -> Option<PaintView> {
    let left = greater(tx, rect.left as int);
    let top = greater(ty, rect.top as int);
    let right = lesser(lesser(tx + TILE, width as int), rect.right as int);
    let bottom = lesser(lesser(ty + TILE, height as int), rect.bottom as int);
    if left >= right || top >= bottom {
        None
    } else {
        Some(
            PaintView {
                rect: Rect16 {
                    left: left as u16,
                    top: top as u16,
                    right: right as u16,
                    bottom: bottom as u16,
                },
                pixels: window(pixels, left - tx, top - ty, right - left, (bottom - top) as nat),
            },
        )
    }
}

/// Whether a repainted rectangle lies inside a surface of this size, with a pixel for
/// every place in it.
pub open spec fn paint_fits(p: PaintView, width: u32, height: u32) -> bool {
    &&& p.rect.full()
    &&& p.rect.right <= width
    &&& p.rect.bottom <= height
    &&& p.pixels.len() == 4 * ((p.rect.right - p.rect.left) * (p.rect.bottom - p.rect.top))
}

pub open spec fn all_fit(paints: Seq<PaintView>, width: u32, height: u32) -> bool {
    forall|i: int| 0 <= i < paints.len() ==> paint_fits(#[trigger] paints[i], width, height)
}

/// What the first `n` rectangles of a region show of one tile.
pub open spec fn tile_paints(grid: GridView, i: int, rects: Seq<Rect16>, n: nat) -> Seq<PaintView>
    decreases n,
{
    if n == 0 {
        seq![]
    } else {
        let cols = tiles_along(grid.width) as int;
        let before = tile_paints(grid, i, rects, (n - 1) as nat);
        match tile_paint(
            grid.tile(i).pixels,
            (i % cols) * TILE,
            (i / cols) * TILE,
            grid.width,
            grid.height,
            rects[n - 1],
        ) {
            Some(paint) => before.push(paint),
            None => before,
        }
    }
}

/// What a region shows of the first `n` tiles it touched.
pub open spec fn region_paints(grid: GridView, touched: Seq<int>, rects: Seq<Rect16>, n: nat) -> Seq<
    PaintView,
>
    decreases n,
{
    if n == 0 {
        seq![]
    } else {
        region_paints(grid, touched, rects, (n - 1) as nat) + tile_paints(
            grid,
            touched[n - 1],
            rects,
            rects.len(),
        )
    }
}

/// Every tile written out, or given up on.
pub open spec fn settled(grid: GridView) -> GridView {
    GridView {
        tiles: Seq::new(
            grid.tiles.len(),
            |i: int|
                match grid.tiles[i] {
                    Some(t) => Some(TileView { dirty: false, ..t }),
                    None => None,
                },
        ),
        ..grid
    }
}

/// A surface being decoded into: its tiles, how many more may be made, and what has been
/// repainted so far.
pub struct RunView {
    pub grid: GridView,
    pub room: nat,
    pub paints: Seq<PaintView>,
}

/// A region's block: what it repaints, unless something in it is wrong, in which case
/// nothing of it is painted and the tiles decoded before the fault are free to be drawn
/// again.
pub open spec fn region_block_spec(c: Cursor, s: RunView) -> (RunView, Result<Cursor, Malformed>) {
    match region_step(c) {
        Step::Stop(e) => (s, Err(e)),
        Step::Got((region, count, tiles), c) => {
            let start = PassView { grid: s.grid, room: s.room, touched: seq![] };
            let (p, res) = region_tiles_spec(region, count, tiles, start);
            let grid = settled(p.grid);
            match res {
                Err(e) => (RunView { grid, room: p.room, paints: s.paints }, Err(e)),
                Ok(_) => (
                    RunView {
                        grid,
                        room: p.room,
                        paints: s.paints + region_paints(
                            p.grid,
                            p.touched,
                            region.rects,
                            p.touched.len(),
                        ),
                    },
                    Ok(c),
                ),
            }
        },
    }
}

/// The blocks that are not regions, which only have to say what is expected of them.
pub open spec fn plain_block_step(kind: u16, c: Cursor) -> Step<()> {
    if kind == WBT_SYNC {
        match c.u32_le() {
            Step::Stop(e) => Step::Stop(e),
            Step::Got(magic, c) => if magic != SYNC_MAGIC {
                Step::Stop(refusal("a sync magic", magic as u64))
            } else {
                match c.u16_le() {
                    Step::Stop(e) => Step::Stop(e),
                    Step::Got(version, c) => if version != SYNC_VERSION {
                        Step::Stop(refusal("a sync version", version as u64))
                    } else {
                        Step::Got((), c)
                    },
                }
            },
        }
    } else if kind == WBT_FRAME_BEGIN {
        match c.u32_le() {
            Step::Stop(e) => Step::Stop(e),
            Step::Got(_, c) => match c.u16_le() {
                Step::Stop(e) => Step::Stop(e),
                Step::Got(_, c) => Step::Got((), c),
            },
        }
    } else if kind == WBT_FRAME_END {
        Step::Got((), c)
    } else if kind == WBT_CONTEXT {
        match c.u8() {
            Step::Stop(e) => Step::Stop(e),
            Step::Got(_, c) => match c.u16_le() {
                Step::Stop(e) => Step::Stop(e),
                Step::Got(tile, c) => if tile != TILE {
                    Step::Stop(refusal("a context tile size", tile as u64))
                } else {
                    match c.u8() {
                        Step::Stop(e) => Step::Stop(e),
                        Step::Got(_, c) => Step::Got((), c),
                    }
                },
            },
        }
    } else {
        Step::Stop(refusal("a block type", kind as u64))
    }
}

/// One block of a PDU.
pub open spec fn block_spec(kind: u16, body: Seq<u8>, s: RunView) -> (RunView, Result<(), Malformed>) {
    let c = cursor(WHAT, body);
    let (s, res) = if kind == WBT_REGION {
        region_block_spec(c, s)
    } else {
        match plain_block_step(kind, c) {
            Step::Stop(e) => (s, Err(e)),
            Step::Got(_, c) => (s, Ok(c)),
        }
    };
    match res {
        Err(e) => (s, Err(e)),
        Ok(c) => if c.left() != 0 {
            (s, Err(refusal("a block with bytes past its fields", kind as u64)))
        } else {
            (s, Ok(()))
        },
    }
}

/// The blocks of a PDU from `c` on.
pub open spec fn blocks_spec(c: Cursor, s: RunView) -> (RunView, Result<(), Malformed>)
    decreases c.left(),
{
    if c.left() == 0 {
        (s, Ok(()))
    } else {
        match block_step(c, "a block length") {
            Step::Stop(e) => (s, Err(e)),
            Step::Got((kind, body), next) => {
                let (s, res) = block_spec(kind, body, s);
                match res {
                    Err(e) => (s, Err(e)),
                    Ok(_) => if next.left() < c.left() { blocks_spec(next, s) } else { (s, Ok(())) },
                }
            },
        }
    }
}

impl Pass {
    fn region_tiles(&mut self, region: &Region, count: u16, tiles: &[u8]) -> (res: Result<(), Malformed>)
        requires
            old(self).wf(),
            region@.wf(),
        ensures
            final(self).wf(),
            final(self).sized_as(*old(self)),
            final(self).allowance() == old(self).allowance(),
            region_tiles_spec(region@, count, tiles@, old(self)@) == (final(self)@, res),
    {
        let mut r = Reader::new(WHAT, tiles);
        let ghost start = r@;
        let mut found: u16 = 0;
        while !r.is_empty()
            invariant
                self.wf(),
                self.sized_as(*old(self)),
                self.allowance() == old(self).allowance(),
                region@.wf(),
                r@.within(),
                start == cursor(WHAT, tiles@),
                tile_blocks_spec(start, region@, old(self)@, 0) == tile_blocks_spec(
                    r@,
                    region@,
                    self@,
                    found,
                ),
            decreases r@.left(),
        {
            let (kind, body) = read_block(&mut r, "a tile block length")?;
            self.tile_block(kind, body, region)?;
            found = if found == 0xFFFF { 0 } else { found + 1 };
        }
        if found != count {
            return Err(refuse("a region's tile count", count as u64));
        }
        Ok(())
    }
}

/// Some rows of a tile, packed.
fn pack(pixels: &Vec<u8>, x: usize, y: usize, width: usize, rows: usize) -> (out: Vec<u8>)
    requires
        pixels@.len() == 4 * COEFFS,
        x + width <= TILE,
        y + rows <= TILE,
    ensures
        out@ == window(pixels@, x as int, y as int, width as int, rows as nat),
        out@.len() == 4 * (width * rows),
{
    let mut out: Vec<u8> = Vec::new();
    assert(width * 0 == 0) by (nonlinear_arith);
    for n in 0..rows
        invariant
            pixels@.len() == 4 * COEFFS,
            x + width <= TILE,
            y + rows <= TILE,
            out@ == window(pixels@, x as int, y as int, width as int, n as nat),
            out@.len() == 4 * (width * n),
    {
        let at: usize = (y + n) * TILE_STRIDE + x * 4;
        let ghost before = out@;
        let row = slice_subrange(pixels.as_slice(), at, at + width * 4);
        out.extend_from_slice(row);
        assert(out@ =~= before + pixels@.subrange(at as int, at + width * 4));
        assert(width * (n + 1) == width * n + width) by (nonlinear_arith);
    }
    out
}

impl Grid {
    /// Append what a region's rectangles show of one tile.
    fn paint(&self, i: usize, rects: &Vec<Rect16>, paints: &mut Vec<Paint>)
        requires
            self.wf(),
            i < self@.tiles.len(),
            self@.tiles[i as int] is Some,
            forall|k: int| 0 <= k < rects@.len() ==> (#[trigger] rects@[k]).ordered(),
            all_fit(paint_views(old(paints)@), self@.width, self@.height),
        ensures
            all_fit(paint_views(final(paints)@), self@.width, self@.height),
            paint_views(final(paints)@) == paint_views(old(paints)@) + tile_paints(
                self@,
                i as int,
                rects@,
                rects@.len(),
            ),
    {
        let cols: usize = ((self.width as u64 + 63) / 64) as usize;
        proof {
            assert(self@.tiles[i as int] == tile_view(self.tiles@[i as int]));
            assert(cols > 0) by {
                if cols == 0 {
                    assert(tiles_in(self.width, self.height) == 0) by (nonlinear_arith)
                        requires
                            tiles_in(self.width, self.height) == tiles_along(self.width) * tiles_along(
                                self.height,
                            ),
                            tiles_along(self.width) == 0,
                    ;
                }
            }
            let (ii, cols, rows) = (i as int, cols as int, tiles_along(self.height) as int);
            assert(0 <= ii / cols < rows) by (nonlinear_arith)
                requires
                    0 <= ii < cols * rows,
                    cols > 0,
            ;
            assert(0 <= ii % cols < cols);
        }
        let tx: u64 = (i % cols) as u64 * 64;
        let ty: u64 = (i / cols) as u64 * 64;
        let (width, height) = (self.width as u64, self.height as u64);
        let right_edge: u64 = if tx + 64 < width { tx + 64 } else { width };
        let bottom_edge: u64 = if ty + 64 < height { ty + 64 } else { height };
        assert(paint_views(paints@) + seq![] =~= paint_views(old(paints)@));
        if let Some(tile) = &self.tiles[i] {
            assert(tile@ == self@.tile(i as int));
            assert(tile@.wf());
            for k in 0..rects.len()
                invariant
                    tile@ == self@.tile(i as int),
                    tile@.wf(),
                    cols == tiles_along(self.width),
                    cols > 0,
                    tx == (i as int % cols as int) * 64,
                    ty == (i as int / cols as int) * 64,
                    tx <= 0x1_0000_0000,
                    ty <= 0x1_0000_0000,
                    width == self.width,
                    height == self.height,
                    right_edge == lesser(tx + TILE, width as int),
                    bottom_edge == lesser(ty + TILE, height as int),
                    forall|j: int| 0 <= j < rects@.len() ==> (#[trigger] rects@[j]).ordered(),
                    all_fit(paint_views(paints@), self@.width, self@.height),
                    paint_views(paints@) == paint_views(old(paints)@) + tile_paints(
                        self@,
                        i as int,
                        rects@,
                        k as nat,
                    ),
            {
                let rect: Rect16 = rects[k];
                let left: u64 = if tx > rect.left as u64 { tx } else { rect.left as u64 };
                let top: u64 = if ty > rect.top as u64 { ty } else { rect.top as u64 };
                let right: u64 = if right_edge < rect.right as u64 { right_edge } else { rect.right as u64 };
                let bottom: u64 = if bottom_edge < rect.bottom as u64 { bottom_edge } else { rect.bottom as u64 };
                let ghost before = paint_views(paints@);
                if left < right && top < bottom {
                    let pixels = pack(
                        &tile.pixels,
                        (left - tx) as usize,
                        (top - ty) as usize,
                        (right - left) as usize,
                        (bottom - top) as usize,
                    );
                    let clipped = Rect16 {
                        left: left as u16,
                        top: top as u16,
                        right: right as u16,
                        bottom: bottom as u16,
                    };
                    paints.push(Paint { rect: clipped, pixels });
                    assert(paint_views(paints@) =~= before.push(paints@[paints@.len() - 1]@));
                }
                assert(paint_views(paints@) =~= paint_views(old(paints)@) + tile_paints(
                    self@,
                    i as int,
                    rects@,
                    (k + 1) as nat,
                ));
            }
        }
    }
}

impl Pass {
    /// Write every tile the region touched to the surface, clipped to the region's
    /// rectangles and to the surface.
    fn present(&self, region: &Region, paints: &mut Vec<Paint>)
        requires
            self.wf(),
            region@.wf(),
            all_fit(paint_views(old(paints)@), self@.grid.width, self@.grid.height),
        ensures
            all_fit(paint_views(final(paints)@), self@.grid.width, self@.grid.height),
            paint_views(final(paints)@) == paint_views(old(paints)@) + region_paints(
                self@.grid,
                self@.touched,
                region@.rects,
                self@.touched.len(),
            ),
    {
        assert(paint_views(paints@) + seq![] =~= paint_views(old(paints)@));
        for n in 0..self.touched.len()
            invariant
                self.wf(),
                region@.wf(),
                all_fit(paint_views(paints@), self@.grid.width, self@.grid.height),
                paint_views(paints@) == paint_views(old(paints)@) + region_paints(
                    self@.grid,
                    self@.touched,
                    region@.rects,
                    n as nat,
                ),
        {
            let i: usize = self.touched[n];
            assert(self@.touched[n as int] == i);
            assert(self@.grid.dirty(i as int));
            let ghost before = paint_views(paints@);
            self.grid.paint(i, &region.rects, paints);
            assert(paint_views(paints@) =~= paint_views(old(paints)@) + region_paints(
                self@.grid,
                self@.touched,
                region@.rects,
                (n + 1) as nat,
            ));
        }
    }

    /// Every tile written out, or given up on.
    fn settle(&mut self)
        requires
            old(self).wf(),
        ensures
            final(self).grid.wf(),
            final(self)@.grid == settled(old(self)@.grid),
            final(self)@.grid.clean(),
            final(self)@.room == old(self)@.room,
            final(self).allowance() == old(self).allowance(),
            final(self)@.touched.len() == 0,
    {
        let ghost start = self@;
        let count: usize = self.touched.len();
        assert(start.touched.skip(0) =~= start.touched);
        for n in 0..count
            invariant
                count == start.touched.len(),
                self.grid.wf(),
                self@.room == start.room,
                self@.touched == start.touched,
                start.wf(),
                self@.grid.width == start.grid.width,
                self@.grid.height == start.grid.height,
                self@.grid.tiles.len() == start.grid.tiles.len(),
                forall|i: int| 0 <= i < start.grid.tiles.len() ==> (#[trigger] self@.grid.tiles[i] is Some
                    == start.grid.tiles[i] is Some),
                forall|i: int| 0 <= i < start.grid.tiles.len() && start.grid.tiles[i] is Some ==> (
                #[trigger] self@.grid.tiles[i])->0 == (TileView {
                    dirty: self@.grid.tiles[i]->0.dirty,
                    ..start.grid.tiles[i]->0
                }),
                forall|i: int| 0 <= i < start.grid.tiles.len() && #[trigger] self@.grid.dirty(i)
                    ==> start.touched.skip(n as int).contains(i),
        {
            let i: usize = self.touched[n];
            assert(self@.touched[n as int] == i);
            assert(start.grid.dirty(i as int));
            let ghost before = self@;
            let mut t = self.grid.take(i);
            t.dirty = false;
            self.grid.put(i, t);
            proof {
                assert(self@.grid.tiles =~= before.grid.tiles.update(i as int, self@.grid.tiles[i as int]));
                assert forall|j: int| 0 <= j < start.grid.tiles.len() && #[trigger] self@.grid.dirty(j)
                    implies start.touched.skip(n + 1).contains(j) by {
                    assert(j != i);
                    assert(before.grid.dirty(j));
                    let k = start.touched.skip(n as int).index_of(j);
                    assert(start.touched.skip(n as int)[k] == j);
                    assert(k > 0);
                    assert(start.touched.skip(n + 1)[k - 1] == j);
                }
            }
        }
        self.touched.clear();
        proof {
            assert forall|i: int| 0 <= i < self@.grid.tiles.len() implies !#[trigger] self@.grid.dirty(i) by {
                if self@.grid.dirty(i) {
                    assert(start.touched.skip(start.touched.len() as int).len() == 0);
                }
            }
            assert forall|i: int| 0 <= i < self@.grid.tiles.len() implies self@.grid.tiles[i] == settled(
                start.grid,
            ).tiles[i] by {
                assert(!self@.grid.dirty(i));
            }
            assert(self@.grid.tiles =~= settled(start.grid).tiles);
            made_alike(self@.grid.tiles, start.grid.tiles, start.grid.tiles.len());
        }
    }

    spec fn run(&self, paints: Seq<Paint>) -> RunView {
        RunView { grid: self@.grid, room: self@.room, paints: paint_views(paints) }
    }

    /// Between regions: nothing is waiting to be written out.
    spec fn idle(&self) -> bool {
        self.wf() && self@.grid.clean() && self@.touched.len() == 0
    }

    fn region_block(&mut self, r: &mut Reader<'_>, paints: &mut Vec<Paint>) -> (res: Result<(), Malformed>)
        requires
            old(self).idle(),
            old(self).framed(old(paints)@),
        ensures
            final(self).idle(),
            final(self).sized_as(*old(self)),
            final(self).allowance() == old(self).allowance(),
            final(self).framed(final(paints)@),
            final(self).run(final(paints)@) == region_block_spec(old(r)@, old(self).run(old(paints)@)).0,
            match res {
                Ok(_) => region_block_spec(old(r)@, old(self).run(old(paints)@)).1 == Ok::<
                    Cursor,
                    Malformed,
                >(final(r)@),
                Err(e) => region_block_spec(old(r)@, old(self).run(old(paints)@)).1 == Err::<
                    Cursor,
                    Malformed,
                >(e),
            },
            final(r)@.within(),
    {
        let (region, count, tiles) = region_header(r)?;
        assert(self@.touched =~= seq![]);
        assert(self@ == (PassView { grid: self@.grid, room: self@.room, touched: seq![] }));
        let res = self.region_tiles(&region, count, tiles);
        if res.is_ok() {
            self.present(&region, paints);
        }
        // On a fault the tiles decoded before it are not written out; left marked as if
        // they had been, nothing would ever write them out again.
        self.settle();
        res
    }

    fn block(&mut self, kind: u16, body: &[u8], paints: &mut Vec<Paint>) -> (res: Result<(), Malformed>)
        requires
            old(self).idle(),
            old(self).framed(old(paints)@),
        ensures
            final(self).idle(),
            final(self).sized_as(*old(self)),
            final(self).allowance() == old(self).allowance(),
            final(self).framed(final(paints)@),
            block_spec(kind, body@, old(self).run(old(paints)@)) == (final(self).run(final(paints)@), res),
    {
        let mut b = Reader::new(WHAT, body);
        match kind {
            WBT_SYNC => {
                let magic = b.u32_le()?;
                if magic != SYNC_MAGIC {
                    return Err(refuse("a sync magic", magic as u64));
                }
                let version = b.u16_le()?;
                if version != SYNC_VERSION {
                    return Err(refuse("a sync version", version as u64));
                }
            },
            WBT_FRAME_BEGIN => {
                b.u32_le()?; // frameIndex
                b.u16_le()?; // regionCount, which a decoder is told to ignore
            },
            WBT_FRAME_END => {},
            WBT_CONTEXT => {
                b.u8()?; // ctxId
                let tile = b.u16_le()?;
                if tile as usize != TILE {
                    return Err(refuse("a context tile size", tile as u64));
                }
                b.u8()?; // flags: subband diffing, which changes nothing here
            },
            WBT_REGION => {
                self.region_block(&mut b, paints)?;
            },
            other => {
                return Err(refuse("a block type", other as u64));
            },
        }
        if !b.is_empty() {
            return Err(refuse("a block with bytes past its fields", kind as u64));
        }
        Ok(())
    }

    fn blocks(&mut self, src: &[u8], paints: &mut Vec<Paint>) -> (res: Result<(), Malformed>)
        requires
            old(self).idle(),
            old(self).framed(old(paints)@),
        ensures
            final(self).idle(),
            final(self).sized_as(*old(self)),
            final(self).allowance() == old(self).allowance(),
            final(self).framed(final(paints)@),
            blocks_spec(cursor(WHAT, src@), old(self).run(old(paints)@)) == (
                final(self).run(final(paints)@),
                res,
            ),
    {
        let mut r = Reader::new(WHAT, src);
        let ghost start = r@;
        while !r.is_empty()
            invariant
                self.idle(),
                self.sized_as(*old(self)),
                self.allowance() == old(self).allowance(),
                self.framed(paints@),
                r@.within(),
                start == cursor(WHAT, src@),
                blocks_spec(start, old(self).run(old(paints)@)) == blocks_spec(r@, self.run(paints@)),
            decreases r@.left(),
        {
            let (kind, body) = read_block(&mut r, "a block length")?;
            self.block(kind, body, paints)?;
        }
        Ok(())
    }
}

/// The decoder: every surface's tiles.
pub struct Progressive {
    surfaces: Table<Grid>,
}

/// What a grid's tiles cost to keep.
pub open spec fn bytes_of(grid: GridView) -> nat {
    grid.made() * TILE_BYTES as nat
}

/// What a surface's tiles cost, for every surface.
pub open spec fn tile_bytes() -> spec_fn(u16, GridView) -> nat {
    |number: u16, grid: GridView| bytes_of(grid)
}

/// What a surface's tiles cost, for every surface but one.
pub open spec fn bytes_unless(surface: u16) -> spec_fn(u16, GridView) -> nat {
    |number: u16, grid: GridView| if number == surface { 0 } else { bytes_of(grid) }
}

/// The grid a surface of this size is drawn on: the one it has, unless that is of another
/// size.
pub open spec fn grid_for(all: Map<u16, GridView>, surface: u16, width: u32, height: u32) -> GridView {
    if all.contains_key(surface) && all[surface].width == width && all[surface].height == height {
        all[surface]
    } else {
        new_grid(width, height)
    }
}

/// How many more tiles `budget` bytes leave room for.
pub open spec fn room_for(budget: nat, held: nat) -> nat {
    if budget <= held { 0 } else { ((budget - held) / (TILE_BYTES as int)) as nat }
}

/// Decoding a PDU for a surface: every surface's tiles after it, what it repainted, and
/// whether it was all it should be.
pub open spec fn decompress_spec(
    all: Map<u16, GridView>,
    surface: u16,
    width: u32,
    height: u32,
    src: Seq<u8>,
    budget: nat,
) -> (RunView, Result<(), Malformed>) {
    let grid = grid_for(all, surface, width, height);
    let held = weight(all, bytes_unless(surface)) + bytes_of(grid);
    blocks_spec(
        cursor(WHAT, src),
        RunView { grid, room: room_for(budget, held), paints: seq![] },
    )
}

impl View for Progressive {
    type V = Map<u16, GridView>;

    closed spec fn view(&self) -> Map<u16, GridView> {
        self.surfaces@
    }
}

impl Progressive {
    /// Every surface's tiles are whole, and none is waiting to be written out.
    pub closed spec fn wf(&self) -> bool {
        forall|k: u16| #[trigger] self@.contains_key(k) ==> self@[k].wf() && self@[k].clean()
    }

    pub fn new() -> (p: Progressive)
        ensures
            p@ == Map::<u16, GridView>::empty(),
            p.wf(),
    {
        Progressive { surfaces: Table::new() }
    }

    /// Forget a surface's tiles: it was deleted, or created anew under the same
    /// number.
    pub fn forget(&mut self, surface: u16)
        requires
            old(self).wf(),
        ensures
            final(self).wf(),
            final(self)@ == old(self)@.remove(surface),
    {
        let _ = self.surfaces.remove(surface);
        assert forall|k: u16| #[trigger] self@.contains_key(k) implies self@[k].wf() && self@[k].clean() by {
            assert(old(self)@.contains_key(k));
        }
    }

    /// What the tiles of every surface but one cost to keep.
    fn held(&self, surface: u16) -> (held: u128)
        requires
            self.wf(),
        ensures
            held == weight(self@, bytes_unless(surface)),
            held <= 0x1_0000 * 0x1_0000_0000_0000_0000_0000,
    {
        let ghost weigh = bytes_unless(surface);
        let mut held: u128 = 0;
        let list = self.surfaces.list();
        proof { walk_weighs(&self.surfaces, weigh); }
        for i in 0..list.len()
            invariant
                self.wf(),
                list@ == self.surfaces.numbers(),
                list@.len() <= 0x1_0000,
                self.surfaces.listed(),
                weigh == bytes_unless(surface),
                held == weight_before(&self.surfaces, weigh, i as int),
                held <= i * 0x1_0000_0000_0000_0000_0000,
        {
            proof { walk_weighs(&self.surfaces, weigh); }
            let grid = self.surfaces.value(list[i]);
            let count: u128 = grid.count() as u128;
            assert(0 <= count * TILE_BYTES <= 0xFFFF_FFFF_FFFF_FFFF * 0x1_0000) by (nonlinear_arith)
                requires
                    0 <= count <= 0xFFFF_FFFF_FFFF_FFFF,
                    0 <= TILE_BYTES <= 0x1_0000,
            ;
            if list[i] != surface {
                held = held + count * TILE_BYTES as u128;
            }
            assert(weight_before(&self.surfaces, weigh, i + 1) == held);
        }
        held
    }

    /// What the tiles of every surface but one cost to keep, or the most that can be
    /// said of it.
    pub fn held_except(&self, surface: u16) -> (held: u64)
        requires
            self.wf(),
        ensures
            held == (if weight(self@, bytes_unless(surface)) < u64::MAX {
                weight(self@, bytes_unless(surface)) as int
            } else {
                u64::MAX as int
            }),
    {
        let held: u128 = self.held(surface);
        if held < u64::MAX as u128 { held as u64 } else { u64::MAX }
    }

    /// Decode one PDU's worth of blocks for a surface of `width` by `height`, and hand
    /// back each rectangle it repainted, those of the regions before a fault too. The
    /// tiles of every surface together are kept to `budget` bytes.
    pub fn decompress(
        &mut self,
        surface: u16,
        width: u32,
        height: u32,
        src: &[u8],
        budget: u64,
    ) -> (out: (Vec<Paint>, Result<(), Malformed>))
        requires
            old(self).wf(),
            tiles_in(width, height) <= usize::MAX,
        ensures
            final(self).wf(),
            ({
                let (run, want) = decompress_spec(
                    old(self)@,
                    surface,
                    width,
                    height,
                    src@,
                    budget as nat,
                );
                &&& final(self)@ == old(self)@.insert(surface, run.grid)
                &&& paint_views(out.0@) == run.paints
                &&& out.1 == want
            }),
            all_fit(paint_views(out.0@), width, height),
            // The tiles together stay within the budget, or take no more than before.
            weight(final(self)@, tile_bytes()) <= budget || weight(final(self)@, tile_bytes()) <= weight(
                old(self)@,
                tile_bytes(),
            ),
    {
        let ghost all = self@;
        let others: u128 = self.held(surface);
        let grid = match self.surfaces.remove(surface) {
            Some(grid) => if grid.width == width && grid.height == height {
                grid
            } else {
                Grid::new(width, height)
            },
            None => Grid::new(width, height),
        };
        assert(grid@ == grid_for(all, surface, width, height));
        let held: u128 = others + grid.count() as u128 * TILE_BYTES as u128;
        let room: u128 = if budget as u128 <= held { 0 } else { (budget as u128 - held) / TILE_BYTES as u128 };
        let mut pass = Pass { grid, room: room as u64, touched: Vec::new() };
        let mut paints: Vec<Paint> = Vec::new();
        assert(pass.run(paints@).paints =~= seq![]);
        let ghost start = pass@;
        let res = pass.blocks(src, &mut paints);
        proof {
            let (grid, after) = (start.grid, pass@.grid);
            leaving_out_weighs(all, tile_bytes(), bytes_unless(surface), surface);
            insert_weighs(all.remove(surface), tile_bytes(), surface, after);
            assert(all.remove(surface).insert(surface, after) =~= all.insert(surface, after));
            remove_weighs(all, tile_bytes(), surface);
            none_made(width, height, tiles_in(width, height));
            assert(bytes_of(grid) <= weight_at(all, tile_bytes(), surface));
            assert(after.made() <= grid.made() + start.room);
            assert(bytes_of(after) <= bytes_of(grid) + start.room * TILE_BYTES) by (nonlinear_arith)
                requires
                    bytes_of(after) == after.made() * TILE_BYTES,
                    bytes_of(grid) == grid.made() * TILE_BYTES,
                    after.made() <= grid.made() + start.room,
                    TILE_BYTES > 0,
            ;
        }
        self.surfaces.insert(surface, pass.grid);
        (paints, res)
    }
}

/// A PDU for a surface, in order or not, changes nothing of any other surface.
pub proof fn other_surfaces_stay(
    all: Map<u16, GridView>,
    surface: u16,
    other: u16,
    width: u32,
    height: u32,
    src: Seq<u8>,
    budget: nat,
)
    requires
        other != surface,
        all.contains_key(other),
    ensures
        all.insert(surface, decompress_spec(all, surface, width, height, src, budget).0.grid)[other] == all[other],
{
}

/// An upgrade that adds no bits leaves a component as it is, whatever its streams hold.
pub proof fn an_upgrade_of_no_bits_changes_nothing(c: ComponentView, srl: Seq<u8>, raw: Seq<u8>)
    requires
        c.wf(),
    ensures
        upgrade_component(c, srl, raw, c.bitpos) == (c, Some(idwt_spec(c.current))),
{
    reveal(upgrade_component);
    let bits = difference_of(c.bitpos, c.bitpos);
    let start = Refining {
        srl: SrlState { at: 0, kp: 8, mode: false, nz: 0 },
        raw: 0,
        current: c.current,
        sign: c.sign,
    };
    nothing_refined(srl, raw, lowered(c.bitpos), bits, start, COEFFS as nat);
}

proof fn nothing_refined(srl: Seq<u8>, raw: Seq<u8>, shift: Seq<u8>, bits: Seq<u8>, s: Refining, n: nat)
    requires
        forall|i: int| 0 <= i < 10 ==> bits[i] == 0,
    ensures
        refined(srl, raw, shift, bits, s, n) == s,
    decreases n,
{
    if n > 0 {
        nothing_refined(srl, raw, shift, bits, s, (n - 1) as nat);
    }
}

/// Whether a repainted rectangle lies inside one of a region's rectangles, inside one tile,
/// and inside a surface of this size.
pub open spec fn placed(p: PaintView, rects: Seq<Rect16>, width: u32, height: u32) -> bool {
    &&& p.rect.full()
    &&& p.rect.right <= width && p.rect.bottom <= height
    &&& p.rect.left as int / 64 == (p.rect.right - 1) / 64
    &&& p.rect.top as int / 64 == (p.rect.bottom - 1) / 64
    &&& exists|k: int| 0 <= k < rects.len() && lies_in(p.rect, #[trigger] rects[k])
}

/// Whether a rectangle lies inside another.
pub open spec fn lies_in(inner: Rect16, outer: Rect16) -> bool {
    &&& outer.left <= inner.left && inner.right <= outer.right
    &&& outer.top <= inner.top && inner.bottom <= outer.bottom
}

/// Whether a region is among the blocks of a PDU from `c` on.
pub open spec fn has_region(c: Cursor, region: RegionView) -> bool
    decreases c.left(),
{
    if c.left() == 0 {
        false
    } else {
        match block_step(c, "a block length") {
            Step::Stop(_) => false,
            Step::Got((kind, body), next) => {
                ||| kind == WBT_REGION && match region_step(cursor(WHAT, body)) {
                    Step::Stop(_) => false,
                    Step::Got((here, _, _), _) => here == region,
                }
                ||| next.left() < c.left() && has_region(next, region)
            },
        }
    }
}

/// Whether a repainted rectangle lies where one of the regions of a PDU from `c` on may
/// paint.
pub open spec fn in_a_region(c: Cursor, p: PaintView, width: u32, height: u32) -> bool {
    exists|region: RegionView| #[trigger]
        has_region(c, region) && placed(p, region.rects, width, height)
}

proof fn one_tile(tile: int, from: int, to: int)
    requires
        64 * tile <= from < to <= 64 * tile + 64,
    ensures
        from / 64 == (to - 1) / 64,
{
}

proof fn tile_paints_are_placed(grid: GridView, i: int, rects: Seq<Rect16>, n: nat)
    requires
        n <= rects.len(),
    ensures
        forall|j: int|
            0 <= j < tile_paints(grid, i, rects, n).len() ==> placed(
                #[trigger] tile_paints(grid, i, rects, n)[j],
                rects,
                grid.width,
                grid.height,
            ),
    decreases n,
{
    if n > 0 {
        tile_paints_are_placed(grid, i, rects, (n - 1) as nat);
        let cols = tiles_along(grid.width) as int;
        let (x, y) = (i % cols, i / cols);
        let rect = rects[n - 1];
        match tile_paint(grid.tile(i).pixels, x * TILE, y * TILE, grid.width, grid.height, rect) {
            Some(paint) => {
                one_tile(x, paint.rect.left as int, paint.rect.right as int);
                one_tile(y, paint.rect.top as int, paint.rect.bottom as int);
                assert(lies_in(paint.rect, rects[n - 1]));
                assert(placed(paint, rects, grid.width, grid.height));
            },
            None => {},
        }
        let before = tile_paints(grid, i, rects, (n - 1) as nat);
        let all = tile_paints(grid, i, rects, n);
        assert forall|j: int| 0 <= j < all.len() implies placed(
            #[trigger] all[j],
            rects,
            grid.width,
            grid.height,
        ) by {
            if j < before.len() {
                assert(all[j] == before[j]);
            }
        }
    }
}

proof fn region_paints_are_placed(grid: GridView, touched: Seq<int>, rects: Seq<Rect16>, n: nat)
    ensures
        forall|j: int|
            0 <= j < region_paints(grid, touched, rects, n).len() ==> placed(
                #[trigger] region_paints(grid, touched, rects, n)[j],
                rects,
                grid.width,
                grid.height,
            ),
    decreases n,
{
    if n > 0 {
        region_paints_are_placed(grid, touched, rects, (n - 1) as nat);
        tile_paints_are_placed(grid, touched[n - 1], rects, rects.len());
        let (before, here) = (
            region_paints(grid, touched, rects, (n - 1) as nat),
            tile_paints(grid, touched[n - 1], rects, rects.len()),
        );
        let all = region_paints(grid, touched, rects, n);
        assert forall|j: int| 0 <= j < all.len() implies placed(
            #[trigger] all[j],
            rects,
            grid.width,
            grid.height,
        ) by {
            if j < before.len() {
                assert(all[j] == before[j]);
            } else {
                assert(all[j] == here[j - before.len()]);
            }
        }
    }
}

/// The tiles decoded and not yet written out are those on the list of them.
spec fn listed(p: PassView) -> bool {
    &&& forall|k: int|
        0 <= k < p.touched.len() ==> 0 <= #[trigger] p.touched[k] < p.grid.tiles.len()
    &&& forall|k: int| 0 <= k < p.touched.len() ==> p.grid.dirty(#[trigger] p.touched[k])
    &&& forall|i: int| 0 <= i < p.grid.tiles.len() && #[trigger] p.grid.dirty(i) ==> p.touched.contains(i)
}

/// A pass over the same grid, with no tile taken off the list.
spec fn goes_on(before: PassView, after: PassView) -> bool {
    &&& after.grid.width == before.grid.width && after.grid.height == before.grid.height
    &&& after.grid.tiles.len() == before.grid.tiles.len()
    &&& forall|i: int| before.touched.contains(i) ==> #[trigger] after.touched.contains(i)
}

/// A tile that is worked on stays as it was on the list or off it.
proof fn passes_keep_the_mark(
    c: Cursor,
    simple: bool,
    region: RegionView,
    h: TileHeader,
    t: TileView,
)
    ensures
        first_spec(c, simple, region, h, t).0.dirty == t.dirty,
        upgrade_spec(c, region, h, t).0.dirty == t.dirty,
{
    reveal(first_spec);
    reveal(upgrade_spec);
    reveal(first_tile);
    reveal(upgrade_tile);
}

proof fn a_tile_block_is_listed(kind: u16, body: Seq<u8>, region: RegionView, p: PassView)
    requires
        listed(p),
    ensures
        listed(tile_block_spec(kind, body, region, p).0),
        goes_on(p, tile_block_spec(kind, body, region, p).0),
        tile_block_spec(kind, body, region, p).1 is Ok ==> match tile_header_step(cursor(WHAT, body)) {
            Step::Stop(_) => false,
            Step::Got(h, _) => p.grid.index_of(h.x, h.y) is Some && tile_block_spec(
                kind,
                body,
                region,
                p,
            ).0.touched.contains(p.grid.index_of(h.x, h.y)->0),
        },
{
    let (after, res) = tile_block_spec(kind, body, region, p);
    match tile_header_step(cursor(WHAT, body)) {
        Step::Stop(_) => {},
        Step::Got(h, c) => match p.grid.index_of(h.x, h.y) {
            None => {},
            Some(i) => {
                let cols = tiles_along(p.grid.width);
                assert(0 <= h.y * cols) by (nonlinear_arith)
                    requires
                        0 <= h.y,
                        0 <= cols,
                ;
                assert(0 <= i < p.grid.tiles.len());
                let opened = p.opened(i);
                let t0 = opened.grid.tile(i);
                passes_keep_the_mark(c, kind == WBT_TILE_SIMPLE, region, h, t0);
                assert(t0.dirty == p.grid.dirty(i));
                assert(after.grid.tiles.len() == p.grid.tiles.len());
                assert forall|j: int| 0 <= j < p.grid.tiles.len() && j != i implies
                    #[trigger] after.grid.dirty(j) == p.grid.dirty(j) by {}
                assert(p.grid.dirty(i) ==> after.grid.dirty(i));
                assert forall|k: int| 0 <= k < after.touched.len() implies 0
                    <= #[trigger] after.touched[k] < after.grid.tiles.len() && after.grid.dirty(
                    after.touched[k],
                ) by {
                    if k < p.touched.len() {
                        assert(after.touched[k] == p.touched[k]);
                        assert(p.grid.dirty(p.touched[k]));
                    }
                }
                assert forall|j: int| p.touched.contains(j) implies #[trigger] after.touched.contains(
                    j,
                ) by {
                    let k = p.touched.index_of(j);
                    assert(after.touched[k] == j);
                }
                assert forall|j: int| 0 <= j < after.grid.tiles.len() && #[trigger] after.grid.dirty(
                    j,
                ) implies after.touched.contains(j) by {
                    if j == i && !p.grid.dirty(i) {
                        assert(after.touched[after.touched.len() - 1] == i);
                    } else {
                        assert(p.grid.dirty(j));
                    }
                }
                if res is Ok {
                    assert(after.grid.dirty(i));
                }
            },
        },
    }
}

/// Whether one of the tile blocks from `c` on is for the `i`th tile of a grid.
pub open spec fn names_tile(c: Cursor, grid: GridView, i: int) -> bool
    decreases c.left(),
{
    if c.left() == 0 {
        false
    } else {
        match block_step(c, "a tile block length") {
            Step::Stop(_) => false,
            Step::Got((_, body), next) => {
                ||| match tile_header_step(cursor(WHAT, body)) {
                    Step::Stop(_) => false,
                    Step::Got(h, _) => grid.index_of(h.x, h.y) == Some(i),
                }
                ||| next.left() < c.left() && names_tile(next, grid, i)
            },
        }
    }
}

proof fn names_alike(c: Cursor, a: GridView, b: GridView, i: int)
    requires
        a.width == b.width,
        a.tiles.len() == b.tiles.len(),
    ensures
        names_tile(c, a, i) == names_tile(c, b, i),
    decreases c.left(),
{
    if c.left() != 0 {
        match block_step(c, "a tile block length") {
            Step::Stop(_) => {},
            Step::Got(_, next) => {
                if next.left() < c.left() {
                    names_alike(next, a, b, i);
                }
            },
        }
    }
}

proof fn tile_blocks_are_listed(c: Cursor, region: RegionView, p: PassView, count: u16)
    requires
        listed(p),
    ensures
        listed(tile_blocks_spec(c, region, p, count).0),
        goes_on(p, tile_blocks_spec(c, region, p, count).0),
        tile_blocks_spec(c, region, p, count).1 is Ok ==> forall|i: int|
            #[trigger] names_tile(c, p.grid, i) ==> tile_blocks_spec(
                c,
                region,
                p,
                count,
            ).0.touched.contains(i),
    decreases c.left(),
{
    if c.left() != 0 {
        match block_step(c, "a tile block length") {
            Step::Stop(_) => {},
            Step::Got((kind, body), next) => {
                a_tile_block_is_listed(kind, body, region, p);
                let (p1, res) = tile_block_spec(kind, body, region, p);
                if res is Ok && next.left() < c.left() {
                    let count1: u16 = if count == 0xFFFF { 0 } else { (count + 1) as u16 };
                    tile_blocks_are_listed(next, region, p1, count1);
                    let after = tile_blocks_spec(next, region, p1, count1);
                    if after.1 is Ok {
                        assert forall|i: int| #[trigger] names_tile(c, p.grid, i) implies after.0.touched.contains(
                            i,
                        ) by {
                            names_alike(next, p.grid, p1.grid, i);
                            if !names_tile(next, p.grid, i) {
                                assert(p1.touched.contains(i));
                            }
                        }
                    }
                }
            },
        }
    }
}

/// What a region leaves behind: a grid of the same size with nothing waiting to be written
/// out, and the paints there were before it.
proof fn a_region_leaves_nothing_waiting(c: Cursor, s: RunView)
    requires
        s.grid.clean(),
    ensures
        ({
            let (after, res) = region_block_spec(c, s);
            &&& after.grid.clean()
            &&& after.grid.width == s.grid.width && after.grid.height == s.grid.height
            &&& res is Err ==> after.paints == s.paints
            &&& s.paints.len() <= after.paints.len() && after.paints.take(s.paints.len() as int)
                == s.paints
            &&& match region_step(c) {
                Step::Stop(_) => after == s,
                Step::Got((region, _, _), _) => forall|j: int|
                    s.paints.len() <= j < after.paints.len() ==> placed(
                        #[trigger] after.paints[j],
                        region.rects,
                        s.grid.width,
                        s.grid.height,
                    ),
            }
        }),
{
    let (after, res) = region_block_spec(c, s);
    match region_step(c) {
        Step::Stop(_) => {
            assert(after.paints.take(s.paints.len() as int) =~= s.paints);
        },
        Step::Got((region, count, tiles), _) => {
            let start = PassView { grid: s.grid, room: s.room, touched: seq![] };
            tile_blocks_are_listed(cursor(WHAT, tiles), region, start, 0);
            let (p, read) = region_tiles_spec(region, count, tiles, start);
            assert forall|i: int| 0 <= i < after.grid.tiles.len() implies !#[trigger] after.grid.dirty(i) by {}
            assert(after.paints.take(s.paints.len() as int) =~= s.paints);
            if read is Ok {
                let shown = region_paints(p.grid, p.touched, region.rects, p.touched.len());
                region_paints_are_placed(p.grid, p.touched, region.rects, p.touched.len());
                assert forall|j: int| s.paints.len() <= j < after.paints.len() implies placed(
                    #[trigger] after.paints[j],
                    region.rects,
                    s.grid.width,
                    s.grid.height,
                ) by {
                    assert(after.paints[j] == shown[j - s.paints.len()]);
                }
            }
        },
    }
}

/// Whatever a PDU holds, and whether or not it is all it should be, each rectangle it
/// repaints lies inside one rectangle of one of its regions, inside one tile and inside the
/// surface; what was painted before stays; and no tile is left waiting to be written out.
pub proof fn a_paint_is_inside_one_rectangle_and_one_tile(c: Cursor, s: RunView)
    requires
        s.grid.clean(),
    ensures
        ({
            let after = blocks_spec(c, s).0;
            &&& after.grid.clean()
            &&& after.grid.width == s.grid.width && after.grid.height == s.grid.height
            &&& s.paints.len() <= after.paints.len() && after.paints.take(s.paints.len() as int)
                == s.paints
            &&& forall|j: int|
                s.paints.len() <= j < after.paints.len() ==> in_a_region(
                    c,
                    #[trigger] after.paints[j],
                    s.grid.width,
                    s.grid.height,
                )
        }),
    decreases c.left(),
{
    let after = blocks_spec(c, s).0;
    assert(s.paints.take(s.paints.len() as int) =~= s.paints);
    if c.left() != 0 {
        match block_step(c, "a block length") {
            Step::Stop(_) => {},
            Step::Got((kind, body), next) => {
                let b = cursor(WHAT, body);
                a_region_leaves_nothing_waiting(b, s);
                let (s1, res) = block_spec(kind, body, s);
                assert forall|j: int| s.paints.len() <= j < s1.paints.len() implies in_a_region(
                    c,
                    #[trigger] s1.paints[j],
                    s.grid.width,
                    s.grid.height,
                ) by {
                    let region = region_step(b)->Got_0.0;
                    assert(has_region(c, region));
                    assert(placed(s1.paints[j], region.rects, s.grid.width, s.grid.height));
                }
                if res is Ok && next.left() < c.left() {
                    a_paint_is_inside_one_rectangle_and_one_tile(next, s1);
                    assert(after.paints.take(s.paints.len() as int) =~= s1.paints.take(
                        s.paints.len() as int,
                    )) by {
                        assert forall|j: int| 0 <= j < s.paints.len() implies after.paints[j]
                            == s1.paints[j] by {
                            assert(after.paints.take(s1.paints.len() as int)[j] == s1.paints[j]);
                        }
                    }
                    assert forall|j: int| s.paints.len() <= j < after.paints.len() implies in_a_region(
                        c,
                        #[trigger] after.paints[j],
                        s.grid.width,
                        s.grid.height,
                    ) by {
                        if j < s1.paints.len() {
                            assert(after.paints.take(s1.paints.len() as int)[j] == s1.paints[j]);
                            assert(after.paints[j] == s1.paints[j]);
                        } else {
                            assert(in_a_region(next, after.paints[j], s.grid.width, s.grid.height));
                            let region = choose|region: RegionView| #[trigger]
                                has_region(next, region) && placed(
                                    after.paints[j],
                                    region.rects,
                                    s.grid.width,
                                    s.grid.height,
                                );
                            assert(has_region(c, region));
                        }
                    }
                }
            },
        }
    }
}

/// Each rectangle that a decode repaints lies inside one rectangle of one of the regions of
/// its PDU, inside one tile and inside the surface, and no tile of the surface is left
/// waiting to be written out.
pub proof fn a_decode_paints_where_its_regions_say(
    p: &Progressive,
    surface: u16,
    width: u32,
    height: u32,
    src: Seq<u8>,
    budget: nat,
)
    requires
        p.wf(),
    ensures
        ({
            let run = decompress_spec(p@, surface, width, height, src, budget).0;
            &&& run.grid.clean()
            &&& forall|j: int|
                0 <= j < run.paints.len() ==> in_a_region(
                    cursor(WHAT, src),
                    #[trigger] run.paints[j],
                    width,
                    height,
                )
        }),
{
    let grid = grid_for(p@, surface, width, height);
    let held = weight(p@, bytes_unless(surface)) + bytes_of(grid);
    a_paint_is_inside_one_rectangle_and_one_tile(
        cursor(WHAT, src),
        RunView { grid, room: room_for(budget, held), paints: seq![] },
    );
}

/// Where the blocks of a PDU from `c` on come to an end, good or bad: the place of the block
/// at fault, or the end, and how things stand before it.
pub open spec fn standing(c: Cursor, s: RunView) -> (Cursor, RunView)
    decreases c.left(),
{
    if c.left() == 0 {
        (c, s)
    } else {
        match block_step(c, "a block length") {
            Step::Stop(_) => (c, s),
            Step::Got((kind, body), next) => {
                let (after, res) = block_spec(kind, body, s);
                if res is Ok && next.left() < c.left() { standing(next, after) } else { (c, s) }
            },
        }
    }
}

/// A region that cannot be read paints nothing, what the regions before it painted stays
/// painted, and the PDU is refused for what was wrong with it.
pub proof fn a_refused_region_paints_nothing(c: Cursor, s: RunView)
    requires
        s.grid.clean(),
    ensures
        ({
            let (c1, s1) = standing(c, s);
            let (after, res) = blocks_spec(c, s);
            c1.left() != 0 ==> match block_step(c1, "a block length") {
                Step::Stop(e) => res == Err::<(), Malformed>(e) && after == s1,
                Step::Got((kind, body), _) => {
                    let (refused, why) = region_block_spec(cursor(WHAT, body), s1);
                    kind == WBT_REGION && why is Err ==> {
                        &&& res == Err::<(), Malformed>(why->Err_0)
                        &&& after == refused
                        &&& after.paints == s1.paints
                        &&& after.grid.clean()
                    }
                },
            }
        }),
    decreases c.left(),
{
    if c.left() != 0 {
        match block_step(c, "a block length") {
            Step::Stop(_) => {},
            Step::Got((kind, body), next) => {
                a_region_leaves_nothing_waiting(cursor(WHAT, body), s);
                let (s1, res) = block_spec(kind, body, s);
                if res is Ok && next.left() < c.left() {
                    a_refused_region_paints_nothing(next, s1);
                }
            },
        }
    }
}

proof fn tile_paints_show(grid: GridView, i: int, rects: Seq<Rect16>, n: nat, k: int)
    requires
        0 <= k < n,
    ensures
        ({
            let cols = tiles_along(grid.width) as int;
            match tile_paint(
                grid.tile(i).pixels,
                (i % cols) * TILE,
                (i / cols) * TILE,
                grid.width,
                grid.height,
                rects[k],
            ) {
                Some(paint) => tile_paints(grid, i, rects, n).contains(paint),
                None => true,
            }
        }),
    decreases n,
{
    let cols = tiles_along(grid.width) as int;
    let before = tile_paints(grid, i, rects, (n - 1) as nat);
    let all = tile_paints(grid, i, rects, n);
    if k < n - 1 {
        tile_paints_show(grid, i, rects, (n - 1) as nat, k);
        match tile_paint(
            grid.tile(i).pixels,
            (i % cols) * TILE,
            (i / cols) * TILE,
            grid.width,
            grid.height,
            rects[k],
        ) {
            Some(paint) => {
                let j = before.index_of(paint);
                assert(all[j] == paint);
            },
            None => {},
        }
    } else {
        match tile_paint(
            grid.tile(i).pixels,
            (i % cols) * TILE,
            (i / cols) * TILE,
            grid.width,
            grid.height,
            rects[k],
        ) {
            Some(paint) => {
                assert(all[all.len() - 1] == paint);
            },
            None => {},
        }
    }
}

proof fn region_paints_show(grid: GridView, touched: Seq<int>, rects: Seq<Rect16>, n: nat, m: int, p: PaintView)
    requires
        0 <= m < n,
        tile_paints(grid, touched[m], rects, rects.len()).contains(p),
    ensures
        region_paints(grid, touched, rects, n).contains(p),
    decreases n,
{
    let before = region_paints(grid, touched, rects, (n - 1) as nat);
    let here = tile_paints(grid, touched[n - 1], rects, rects.len());
    let all = region_paints(grid, touched, rects, n);
    if m < n - 1 {
        region_paints_show(grid, touched, rects, (n - 1) as nat, m, p);
        let j = before.index_of(p);
        assert(all[j] == p);
    } else {
        let j = here.index_of(p);
        assert(all[before.len() + j] == p);
    }
}

/// What one rectangle shows of the `i`th tile of a grid.
pub open spec fn shown_of(grid: GridView, i: int, rect: Rect16) -> Option<PaintView> {
    let cols = tiles_along(grid.width) as int;
    tile_paint(
        grid.tile(i).pixels,
        (i % cols) * TILE,
        (i / cols) * TILE,
        grid.width,
        grid.height,
        rect,
    )
}

/// Every tile a region draws is painted wherever one of its rectangles shows it, as it then
/// stands, whatever became of the regions before: those of a refused region too, by the
/// next region that draws them.
pub proof fn a_drawn_tile_is_painted(c: Cursor, s: RunView, i: int, k: int)
    requires
        s.grid.clean(),
        region_block_spec(c, s).1 is Ok,
        region_step(c) matches Step::Got((region, _, tiles), _) && names_tile(
            cursor(WHAT, tiles),
            s.grid,
            i,
        ) && 0 <= k < region.rects.len(),
    ensures
        ({
            let after = region_block_spec(c, s).0;
            let region = region_step(c)->Got_0.0;
            match shown_of(after.grid, i, region.rects[k]) {
                Some(paint) => after.paints.skip(s.paints.len() as int).contains(paint),
                None => true,
            }
        }),
{
    let after = region_block_spec(c, s).0;
    let (region, count, tiles) = region_step(c)->Got_0;
    let start = PassView { grid: s.grid, room: s.room, touched: seq![] };
    tile_blocks_are_listed(cursor(WHAT, tiles), region, start, 0);
    let p = region_tiles_spec(region, count, tiles, start).0;
    let shown = region_paints(p.grid, p.touched, region.rects, p.touched.len());
    assert(after.paints.skip(s.paints.len() as int) =~= shown);
    assert(p.touched.contains(i));
    let m = p.touched.index_of(i);
    assert(0 <= p.touched[m] < p.grid.tiles.len() && p.grid.dirty(p.touched[m]));
    assert(after.grid.tile(i).pixels == p.grid.tile(i).pixels);
    tile_paints_show(p.grid, i, region.rects, region.rects.len(), k);
    match shown_of(after.grid, i, region.rects[k]) {
        Some(paint) => {
            region_paints_show(p.grid, p.touched, region.rects, p.touched.len(), m, paint);
        },
        None => {},
    }
}

/// The tiles of a region that was refused are painted by the next region that draws them,
/// in the same PDU or in a later one: it starts from the tiles as they were left, and the
/// refused region painted nothing.
pub proof fn a_refused_regions_tiles_are_painted_by_the_next(
    refused: Cursor,
    s: RunView,
    next: Cursor,
    t: RunView,
    i: int,
    k: int,
)
    requires
        s.grid.clean(),
        region_block_spec(refused, s).1 is Err,
        t.grid == region_block_spec(refused, s).0.grid,
        region_block_spec(next, t).1 is Ok,
        region_step(next) matches Step::Got((region, _, tiles), _) && names_tile(
            cursor(WHAT, tiles),
            t.grid,
            i,
        ) && 0 <= k < region.rects.len(),
    ensures
        region_block_spec(refused, s).0.paints == s.paints,
        ({
            let after = region_block_spec(next, t).0;
            let region = region_step(next)->Got_0.0;
            match shown_of(after.grid, i, region.rects[k]) {
                Some(paint) => after.paints.skip(t.paints.len() as int).contains(paint),
                None => true,
            }
        }),
{
    a_region_leaves_nothing_waiting(refused, s);
    a_drawn_tile_is_painted(next, t, i, k);
}

/// A decode comes to what its regions paint, up to one that cannot be read: each rectangle
/// lies inside one rectangle of one of its regions, inside one tile and inside the surface;
/// what the regions before the fault painted is what is painted; and the fault is the
/// region's. No tile is left waiting to be written out.
pub proof fn a_decode_is_its_regions_up_to_a_fault(
    p: &Progressive,
    surface: u16,
    width: u32,
    height: u32,
    src: Seq<u8>,
    budget: nat,
)
    requires
        p.wf(),
    ensures
        ({
            let (run, res) = decompress_spec(p@, surface, width, height, src, budget);
            let grid = grid_for(p@, surface, width, height);
            let held = weight(p@, bytes_unless(surface)) + bytes_of(grid);
            let start = RunView { grid, room: room_for(budget, held), paints: seq![] };
            let (c, before) = standing(cursor(WHAT, src), start);
            &&& run.grid.clean()
            &&& forall|j: int|
                0 <= j < run.paints.len() ==> in_a_region(
                    cursor(WHAT, src),
                    #[trigger] run.paints[j],
                    width,
                    height,
                )
            &&& c.left() != 0 ==> match block_step(c, "a block length") {
                Step::Stop(e) => res == Err::<(), Malformed>(e) && run == before,
                Step::Got((kind, body), _) => {
                    let why = region_block_spec(cursor(WHAT, body), before).1;
                    kind == WBT_REGION && why is Err ==> res == Err::<(), Malformed>(why->Err_0)
                        && run.paints == before.paints
                },
            }
        }),
{
    let grid = grid_for(p@, surface, width, height);
    let held = weight(p@, bytes_unless(surface)) + bytes_of(grid);
    let start = RunView { grid, room: room_for(budget, held), paints: seq![] };
    a_decode_paints_where_its_regions_say(p, surface, width, height, src, budget);
    a_refused_region_paints_nothing(cursor(WHAT, src), start);
}

/// The quantization values of a table, by sub-band: three details at each of three levels,
/// and the coarsest picture.
pub struct Values {
    pub ll3: u8,
    pub hl3: u8,
    pub lh3: u8,
    pub hh3: u8,
    pub hl2: u8,
    pub lh2: u8,
    pub hh2: u8,
    pub hl1: u8,
    pub lh1: u8,
    pub hh1: u8,
}

impl Values {
    pub open spec fn fit(self) -> bool {
        &&& self.ll3 < 16 && self.hl3 < 16 && self.lh3 < 16 && self.hh3 < 16
        &&& self.hl2 < 16 && self.lh2 < 16 && self.hh2 < 16
        &&& self.hl1 < 16 && self.lh1 < 16 && self.hh1 < 16
    }

    /// A table as it is sent: from the coarsest sub-band to the finest, two to a byte, the
    /// first of them in its low half.
    pub open spec fn bytes(self) -> Seq<u8> {
        seq![
            (self.ll3 + 16 * self.hl3) as u8,
            (self.lh3 + 16 * self.hh3) as u8,
            (self.hl2 + 16 * self.lh2) as u8,
            (self.hh2 + 16 * self.hl1) as u8,
            (self.lh1 + 16 * self.hh1) as u8,
        ]
    }

    /// The value that goes with a coefficient: the sub-bands are kept from the finest to the
    /// coarsest, each as many coefficients as it is wide and tall.
    pub open spec fn at(self, i: int) -> u8 {
        if i < 31 * 33 {
            self.hl1
        } else if i < 2 * (31 * 33) {
            self.lh1
        } else if i < 2 * (31 * 33) + 31 * 31 {
            self.hh1
        } else if i < 3007 + 16 * 17 {
            self.hl2
        } else if i < 3007 + 2 * (16 * 17) {
            self.lh2
        } else if i < 3007 + 2 * (16 * 17) + 16 * 16 {
            self.hh2
        } else if i < 3807 + 8 * 9 {
            self.hl3
        } else if i < 3807 + 2 * (8 * 9) {
            self.lh3
        } else if i < 3807 + 2 * (8 * 9) + 8 * 8 {
            self.hh3
        } else {
            self.ll3
        }
    }
}

/// A table reads back as it was written: each coefficient has the value of its own sub-band.
pub proof fn a_table_reads_back(c: Cursor, v: Values, i: int)
    requires
        v.fit(),
        c.faces(v.bytes()),
        0 <= i < 4096,
    ensures
        match quant_step(c) {
            Step::Stop(_) => false,
            Step::Got(q, next) => q.len() == 10 && q[band_of(i)] == v.at(i) && next == c.plus(5),
        },
{
    let b = v.bytes();
    super::wire::facing(c, b);
    assert(c.bytes[c.at + 0] == b[0] && c.bytes[c.at + 1] == b[1] && c.bytes[c.at + 2] == b[2]);
    assert(c.bytes[c.at + 3] == b[3] && c.bytes[c.at + 4] == b[4]);
    assert(c.plus(1).plus(1).plus(1).plus(1).plus(1) == c.plus(5));
    halves_come_apart(v.ll3, v.hl3);
    halves_come_apart(v.lh3, v.hh3);
    halves_come_apart(v.hl2, v.lh2);
    halves_come_apart(v.hh2, v.hl1);
    halves_come_apart(v.lh1, v.hh1);
}

proof fn halves_come_apart(low: u8, high: u8)
    requires
        low < 16,
        high < 16,
    ensures
        ((low + 16 * high) as u8) % 16 == low,
        ((low + 16 * high) as u8) / 16 == high,
{
}

/// A first pass moves every coefficient but those of the coarsest picture up by one less
/// than the bits of its sub-band, in sixteen bits.
pub proof fn a_coefficient_is_moved_up(raw: Seq<i16>, v: Values, q: Seq<u8>, i: int)
    requires
        0 <= i < 4015,
        q.len() == 10,
        q[band_of(i)] == v.at(i),
        1 <= v.at(i) <= 30,
    ensures
        ({
            let up = pow2((v.at(i) - 1) as nat) as int;
            let got = dequantized(raw, lowered(q))[i];
            (got - raw[i] * up) % 65536 == 0
        }),
{
    let up = pow2((v.at(i) - 1) as nat) as int;
    assert(lowered(q)[band_of(i)] == v.at(i) - 1);
    wrapping_keeps_the_rest(raw[i] * up);
}

proof fn wrapping_keeps_the_rest(n: int)
    ensures
        (wrap16(n) - n) % 65536 == 0,
{
    let low = n % 65536;
    assert(n == 65536 * (n / 65536) + low);
    assert((low - n) % 65536 == 0) by {
        assert(low - n == 65536 * (-(n / 65536)));
    }
    assert((low - 65536 - n) % 65536 == 0) by {
        assert(low - 65536 - n == 65536 * (-(n / 65536) - 1));
    }
}

/// The coarsest picture is coded as what each of its coefficients adds to the one before it,
/// the first to nothing: with nothing to be moved up by, each is the one before it and what
/// was sent for it, in sixteen bits.
pub proof fn the_coarsest_picture_is_summed(raw: Seq<i16>, i: int)
    requires
        4015 <= i < 4096,
    ensures
        ({
            let got = dequantized(raw, Seq::new(10, |k: int| 0u8));
            if i == 4015 {
                got[i] == raw[i]
            } else {
                (got[i] - got[i - 1] - raw[i]) % 65536 == 0
            }
        }),
{
    vstd::arithmetic::power2::lemma2_to64();
    let zero = Seq::new(10, |k: int| 0u8);
    let got = dequantized(raw, zero);
    assert(zero[band_of(i)] == 0);
    moved_by_nothing(summed(raw, i) as int);
    if i > 4015 {
        assert(zero[band_of(i - 1)] == 0);
        moved_by_nothing(summed(raw, i - 1) as int);
        wrapping_keeps_the_rest(summed(raw, i - 1) + raw[i]);
    }
}

proof fn moved_by_nothing(v: int)
    requires
        -0x8000 <= v < 0x8000,
    ensures
        wrap16(shifted(v, 0)) == v,
{
    vstd::arithmetic::power2::lemma2_to64();
    assert(v * pow2(0) == v) by (nonlinear_arith)
        requires
            pow2(0) == 1,
    ;
}

/// A first pass that is a difference adds to what the tile holds, held to sixteen bits, and
/// one that is not does not depend on it.
pub proof fn a_difference_adds_to_what_is_held(raw: Seq<i16>, shift: Seq<u8>, held: Seq<i16>, other: Seq<i16>, i: int)
    requires
        0 <= i < 4096,
    ensures
        ({
            let fresh = first_coefficients(raw, shift, false, other);
            let sum = fresh[i] + held[i];
            &&& fresh == first_coefficients(raw, shift, false, held)
            &&& first_coefficients(raw, shift, true, held)[i] == if sum > 32767 {
                32767
            } else if sum < -32768 {
                -32768
            } else {
                sum
            }
        }),
{
}

/// The precision a pass holds a component to is its table and what the pass holds back,
/// sub-band by sub-band; the quality of all ones holds nothing back.
pub proof fn a_pass_holds_back_what_its_quality_says(region: RegionView, h: TileHeader, quality: u8, k: int)
    requires
        region.wf(),
        0 <= k < 10,
        h.quant_y < region.quants.len(),
        h.quant_cb < region.quants.len(),
        h.quant_cr < region.quants.len(),
        quality < region.prog.len() || quality == 255,
    ensures
        match positions_spec(region, h, quality) {
            Err(_) => false,
            Ok(at) => {
                let (y, cb, cr) = (
                    region.quants[h.quant_y as int],
                    region.quants[h.quant_cb as int],
                    region.quants[h.quant_cr as int],
                );
                if quality == 255 {
                    at.y[k] == y[k] && at.cb[k] == cb[k] && at.cr[k] == cr[k]
                } else {
                    let held = region.prog[quality as int];
                    at.y[k] == y[k] + held.y[k] && at.cb[k] == cb[k] + held.cb[k] && at.cr[k] == cr[k]
                        + held.cr[k]
                }
            },
        },
{
    assert(usable(region.quants[h.quant_y as int]));
    assert(usable(region.quants[h.quant_cb as int]));
    assert(usable(region.quants[h.quant_cr as int]));
    if quality != 255 {
        assert(region.prog[quality as int].wf());
    }
}

/// A coefficient whose sign is known gains the bits that are read for it, moved up to their
/// place, away from zero; one of the coarsest picture gains them as they are. One whose sign
/// is not known gains the value that is read for it, and its sign is then that value's. No
/// other coefficient changes.
pub proof fn a_coefficient_gains_what_is_read_for_it(
    srl: Seq<u8>,
    raw: Seq<u8>,
    shift: Seq<u8>,
    bits: Seq<u8>,
    s: Refining,
    i: int,
    other: int,
)
    requires
        0 <= i < 4096,
        s.current.len() == 4096,
        s.sign.len() == 4096,
        0 <= other < 4096,
        other != i,
    ensures
        ({
            let n = bits[band_of(i)] as nat;
            let up = pow2(shift[band_of(i)] as nat) as int;
            let read = number_at(raw, s.raw, n) as int;
            let after = refine_one(srl, raw, shift, bits, s, i);
            &&& after.current[other] == s.current[other] && after.sign[other] == s.sign[other]
            &&& n == 0 ==> after == s
            &&& n > 0 && (i >= 4015 || s.sign[i] > 0) ==> {
                &&& (after.current[i] - s.current[i] - read * up) % 65536 == 0
                &&& after.sign == s.sign && after.srl == s.srl
            }
            &&& n > 0 && i < 4015 && s.sign[i] < 0 ==> {
                &&& (after.current[i] - s.current[i] + read * up) % 65536 == 0
                &&& after.sign == s.sign && after.srl == s.srl
            }
            &&& n > 0 && i < 4015 && s.sign[i] == 0 ==> {
                let (next, value) = srl_step(srl, s.srl, n);
                &&& (after.current[i] - s.current[i] - value * up) % 65536 == 0
                &&& after.sign[i] == value && after.srl == next && after.raw == s.raw
            }
        }),
{
    let n = bits[band_of(i)] as nat;
    let up = pow2(shift[band_of(i)] as nat) as int;
    let read = number_at(raw, s.raw, n) as int;
    wrapping_keeps_the_rest(s.current[i] + read * up);
    assert((-read) * up == -(read * up)) by (nonlinear_arith);
    wrapping_keeps_the_rest(s.current[i] - read * up);
    let value = srl_step(srl, s.srl, n).1;
    wrapping_keeps_the_rest(s.current[i] + value * up);
}

/// The tile at some place of a grid is counted along its rows, and its corner is that many
/// times 64 pixels across and down.
pub proof fn a_tile_is_at_its_place(grid: GridView, x: u16, y: u16)
    requires
        grid.index_of(x, y) is Some,
    ensures
        ({
            let i = grid.index_of(x, y)->0;
            let across = (grid.width + 63) / 64;
            i % across == x && i / across == y
        }),
{
    let across = tiles_along(grid.width) as int;
    vstd::arithmetic::div_mod::lemma_fundamental_div_mod_converse(y * across + x, across, y as int, x as int);
}

proof fn a_window_row(pixels: Seq<u8>, x: int, y: int, width: int, n: nat, row: int, j: int)
    requires
        0 <= x,
        0 <= y,
        0 <= width,
        x + width <= 64,
        y + n <= 64,
        pixels.len() == 4 * 4096,
        0 <= row < n,
        0 <= j < 4 * width,
    ensures
        window(pixels, x, y, width, n).len() == 4 * width * n,
        window(pixels, x, y, width, n)[4 * width * row + j] == pixels[256 * (y + row) + 4 * x + j],
    decreases n,
{
    let m = (n - 1) as nat;
    window_is_long(pixels, x, y, width, m);
    window_is_long(pixels, x, y, width, n);
    if row < m {
        a_window_row(pixels, x, y, width, m, row, j);
        assert(4 * width * row + j < 4 * width * m) by (nonlinear_arith)
            requires
                row + 1 <= m,
                0 <= j < 4 * width,
        ;
        assert(0 <= 4 * width * row) by (nonlinear_arith)
            requires
                0 <= width,
                0 <= row,
        ;
    } else {
        assert(4 * width * row == 4 * width * m) by (nonlinear_arith)
            requires
                row == m,
        ;
    }
}

proof fn window_is_long(pixels: Seq<u8>, x: int, y: int, width: int, n: nat)
    requires
        0 <= x,
        0 <= y,
        0 <= width,
        x + width <= 64,
        y + n <= 64,
        pixels.len() == 4 * 4096,
    ensures
        window(pixels, x, y, width, n).len() == 4 * width * n,
    decreases n,
{
    if n == 0 {
        assert(4 * width * n == 0) by (nonlinear_arith)
            requires
                n == 0,
        ;
    } else {
        window_is_long(pixels, x, y, width, (n - 1) as nat);
        assert(4 * width * n == 4 * width * (n - 1) + 4 * width) by (nonlinear_arith);
    }
}

/// What a rectangle shows of a tile is what they share, and every pixel of it is the tile's
/// own at that place: the tile's corner is 64 pixels across and down for each tile before
/// it.
pub proof fn a_tile_shows_its_own_pixels(grid: GridView, x: u16, y: u16, rect: Rect16, px: int, py: int, j: int)
    requires
        grid.wf(),
        grid.index_of(x, y) is Some,
        grid.tiles[grid.index_of(x, y)->0] is Some,
        0 <= j < 4,
    ensures
        ({
            let i = grid.index_of(x, y)->0;
            let shared = rect.left <= px < rect.right && rect.top <= py < rect.bottom && 64 * x <= px < 64 * x
                + 64 && 64 * y <= py < 64 * y + 64 && px < grid.width && py < grid.height;
            match shown_of(grid, i, rect) {
                None => !shared,
                Some(p) => {
                    let (left, top) = (p.rect.left as int, p.rect.top as int);
                    let wide = p.rect.right - p.rect.left;
                    &&& shared <==> left <= px < p.rect.right && top <= py < p.rect.bottom
                    &&& shared ==> p.pixels[4 * wide * (py - top) + 4 * (px - left) + j]
                        == grid.tile(i).pixels[256 * (py - 64 * y) + 4 * (px - 64 * x) + j]
                },
            }
        }),
{
    a_tile_is_at_its_place(grid, x, y);
    let i = grid.index_of(x, y)->0;
    let across = tiles_along(grid.width) as int;
    assert(0 <= y * across) by (nonlinear_arith)
        requires
            0 <= y,
            0 <= across,
    ;
    assert(grid.tiles[i]->0.wf());
    match shown_of(grid, i, rect) {
        None => {},
        Some(p) => {
            let (left, top) = (p.rect.left as int, p.rect.top as int);
            let wide = p.rect.right - p.rect.left;
            let tall = (p.rect.bottom - p.rect.top) as nat;
            if left <= px < p.rect.right && top <= py < p.rect.bottom {
                a_window_row(
                    grid.tile(i).pixels,
                    left - 64 * x,
                    top - 64 * y,
                    wide,
                    tall,
                    py - top,
                    4 * (px - left) + j,
                );
            }
        },
    }
}

/// A first pass over a tile shows what its three components come to: the luma from the luma
/// stream and table, and the differences from theirs.
pub proof fn a_first_pass_shows_its_three_components(t: TileView, data: Three, at: Three, diff: bool)
    requires
        data.y.len() > 0,
        data.cb.len() > 0,
        data.cr.len() > 0,
    ensures
        ({
            let (after, ok) = first_tile(t, data, at, diff);
            let y = first_coefficients(rlgr1_spec(data.y, 4096), lowered(at.y), diff, t.y.current);
            let cb = first_coefficients(rlgr1_spec(data.cb, 4096), lowered(at.cb), diff, t.cb.current);
            let cr = first_coefficients(rlgr1_spec(data.cr, 4096), lowered(at.cr), diff, t.cr.current);
            &&& ok
            &&& after.pixels == pixels_spec(idwt_spec(y), idwt_spec(cb), idwt_spec(cr))
            &&& after.y.current == y && after.cb.current == cb && after.cr.current == cr
            &&& after.y.bitpos == at.y && after.cb.bitpos == at.cb && after.cr.bitpos == at.cr
            &&& after.started
        }),
{
    reveal(first_tile);
    reveal(first_component);
}

/// An upgrade of a tile shows what its three components come to, each refined by its own two
/// streams to its own precision.
pub proof fn an_upgrade_shows_its_three_components(t: TileView, srl: Three, raw: Three, at: Three)
    ensures
        ({
            let (after, ok) = upgrade_tile(t, srl, raw, at);
            let (y, ys) = upgrade_component(t.y, srl.y, raw.y, at.y);
            let (cb, cbs) = upgrade_component(t.cb, srl.cb, raw.cb, at.cb);
            let (cr, crs) = upgrade_component(t.cr, srl.cr, raw.cr, at.cr);
            match (ys, cbs, crs) {
                (Some(ys), Some(cbs), Some(crs)) => {
                    &&& ok
                    &&& after.pixels == pixels_spec(ys, cbs, crs)
                    &&& after.y == y && after.cb == cb && after.cr == cr
                },
                _ => !ok && after.pixels == t.pixels,
            }
        }),
{
    reveal(upgrade_tile);
}

/// Whether a table holds these values, each for the coefficients of its own sub-band.
pub open spec fn holds(q: Seq<u8>, v: Values) -> bool {
    q.len() == 10 && forall|i: int| 0 <= i < 4096 ==> q[#[trigger] band_of(i)] == v.at(i)
}

proof fn a_table_is_next(c: Cursor, v: Values, rest: Seq<u8>)
    requires
        v.fit(),
        c.faces(v.bytes() + rest),
    ensures
        match quant_step(c) {
            Step::Stop(_) => false,
            Step::Got(q, next) => holds(q, v) && next == c.plus(5),
        },
        c.plus(5).faces(rest),
{
    bytes_next(c, v.bytes(), rest);
    super::wire::facing_both(c, v.bytes(), rest);
    assert forall|i: int| 0 <= i < 4096 implies (quant_step(c)->Got_0)[#[trigger] band_of(i)] == v.at(i) by {
        a_table_reads_back(c, v, i);
    }
    a_table_reads_back(c, v, 0);
}

/// A rectangle as a region sends it: its corner, and how wide and tall it is.
pub open spec fn rect_bytes(r: Rect16) -> Seq<u8> {
    le16(r.left) + (le16(r.top) + (le16((r.right - r.left) as u16) + le16((r.bottom - r.top) as u16)))
}

pub open spec fn rects_bytes(rects: Seq<Rect16>) -> Seq<u8>
    decreases rects.len(),
{
    if rects.len() == 0 { seq![] } else { rect_bytes(rects[0]) + rects_bytes(rects.skip(1)) }
}

pub open spec fn tables_bytes(tables: Seq<Values>) -> Seq<u8>
    decreases tables.len(),
{
    if tables.len() == 0 { seq![] } else { tables[0].bytes() + tables_bytes(tables.skip(1)) }
}

proof fn a_rect_is_next(c: Cursor, r: Rect16, rest: Seq<u8>)
    requires
        r.ordered(),
        c.faces(rect_bytes(r) + rest),
    ensures
        region_rect_step(c) == Step::Got(r, c.plus(8)),
        c.plus(8).faces(rest),
{
    let (w, h) = ((r.right - r.left) as u16, (r.bottom - r.top) as u16);
    let all = le16(r.left) + (le16(r.top) + (le16(w) + (le16(h) + rest)));
    assert(rect_bytes(r) + rest =~= all);
    word_next(c, r.left, le16(r.top) + (le16(w) + (le16(h) + rest)));
    word_next(c.plus(2), r.top, le16(w) + (le16(h) + rest));
    word_next(c.plus(2).plus(2), w, le16(h) + rest);
    word_next(c.plus(2).plus(2).plus(2), h, rest);
    assert(c.plus(2).plus(2).plus(2).plus(2) == c.plus(8));
}

proof fn rects_are_next(c: Cursor, rects: Seq<Rect16>, got: Seq<Rect16>, rest: Seq<u8>)
    requires
        forall|i: int| 0 <= i < rects.len() ==> (#[trigger] rects[i]).ordered(),
        c.faces(rects_bytes(rects) + rest),
    ensures
        region_rects_step(c, rects.len(), got) == Step::Got(got + rects, c.plus(8 * rects.len() as int)),
        c.plus(8 * rects.len() as int).faces(rest),
    decreases rects.len(),
{
    if rects.len() == 0 {
        assert(rects_bytes(rects) + rest =~= rest);
        assert(got + rects =~= got);
        assert(c.plus(0) == c);
    } else {
        let more = rects.skip(1);
        assert(rects[0].ordered());
        assert(rects_bytes(rects) + rest =~= rect_bytes(rects[0]) + (rects_bytes(more) + rest));
        a_rect_is_next(c, rects[0], rects_bytes(more) + rest);
        assert forall|i: int| 0 <= i < more.len() implies (#[trigger] more[i]).ordered() by {
            assert(more[i] == rects[i + 1]);
        }
        rects_are_next(c.plus(8), more, got.push(rects[0]), rest);
        assert(got.push(rects[0]) + more =~= got + rects);
        assert(c.plus(8).plus(8 * more.len() as int) == c.plus(8 * rects.len() as int));
    }
}

/// Whether tables hold these values, one for one.
pub open spec fn all_hold(quants: Seq<Seq<u8>>, tables: Seq<Values>) -> bool {
    quants.len() == tables.len() && forall|i: int|
        #![trigger quants[i]]
        #![trigger tables[i]]
        0 <= i < tables.len() ==> holds(quants[i], tables[i])
}

pub open spec fn in_range(v: Values) -> bool {
    &&& v.fit()
    &&& v.ll3 >= 6 && v.hl3 >= 6 && v.lh3 >= 6 && v.hh3 >= 6 && v.hl2 >= 6 && v.lh2 >= 6 && v.hh2 >= 6
    &&& v.hl1 >= 6 && v.lh1 >= 6 && v.hh1 >= 6
}

proof fn held_in_range_is_usable(q: Seq<u8>, v: Values)
    requires
        holds(q, v),
        in_range(v),
    ensures
        usable(q),
{
    assert forall|k: int| 0 <= k < 10 implies 6 <= #[trigger] q[k] <= 15 by {
        let i = if k == 0 { 0int } else if k == 1 { 1023 } else if k == 2 { 2046 } else if k == 3 {
            3007
        } else if k == 4 { 3279 } else if k == 5 { 3551 } else if k == 6 { 3807 } else if k == 7 {
            3879
        } else if k == 8 { 3951 } else { 4015 };
        assert(band_of(i) == k);
    }
}

proof fn tables_are_next(c: Cursor, tables: Seq<Values>, got: Seq<Seq<u8>>, before: Seq<Values>, rest: Seq<u8>)
    requires
        forall|i: int| 0 <= i < tables.len() ==> in_range(#[trigger] tables[i]),
        all_hold(got, before),
        c.faces(tables_bytes(tables) + rest),
    ensures
        match quants_step(c, tables.len(), got) {
            Step::Stop(_) => false,
            Step::Got(quants, next) => all_hold(quants, before + tables) && next == c.plus(
                5 * tables.len() as int,
            ),
        },
        c.plus(5 * tables.len() as int).faces(rest),
    decreases tables.len(),
{
    if tables.len() == 0 {
        assert(tables_bytes(tables) + rest =~= rest);
        assert(before + tables =~= before);
        assert(c.plus(0) == c);
    } else {
        let (v, more) = (tables[0], tables.skip(1));
        assert(in_range(v));
        assert(tables_bytes(tables) + rest =~= v.bytes() + (tables_bytes(more) + rest));
        a_table_is_next(c, v, tables_bytes(more) + rest);
        let q = quant_step(c)->Got_0;
        held_in_range_is_usable(q, v);
        assert forall|i: int| 0 <= i < more.len() implies in_range(#[trigger] more[i]) by {
            assert(more[i] == tables[i + 1]);
        }
        let (got1, before1) = (got.push(q), before.push(v));
        assert forall|i: int|
            #![trigger got1[i]]
            #![trigger before1[i]]
            0 <= i < before1.len() implies holds(got1[i], before1[i]) by {
            if i < before.len() {
                assert(got1[i] == got[i] && before1[i] == before[i]);
            }
        }
        tables_are_next(c.plus(5), more, got1, before1, rest);
        assert(before1 + more =~= before + tables);
        assert(c.plus(5).plus(5 * more.len() as int) == c.plus(5 * tables.len() as int));
    }
}

/// A region with no passes held back, as it is sent: 64 for its tiles, how many rectangles,
/// tables and tiles it has and how long its tiles are, and then the rectangles, the tables
/// and the tiles.
pub open spec fn region_bytes(rects: Seq<Rect16>, tables: Seq<Values>, count: u16, tiles: Seq<u8>) -> Seq<u8> {
    seq![64u8] + (le16(rects.len() as u16) + (seq![tables.len() as u8] + (seq![0u8] + (seq![1u8] + (le16(count) + (
    le32(tiles.len() as u32) + (rects_bytes(rects) + (tables_bytes(tables) + tiles))))))))
}

/// A region opens as it was written.
pub proof fn a_region_opens_as_it_was_written(rects: Seq<Rect16>, tables: Seq<Values>, count: u16, tiles: Seq<u8>)
    requires
        1 <= rects.len() <= 0xFFFF,
        tables.len() <= 7,
        tiles.len() <= u32::MAX,
        forall|i: int| 0 <= i < rects.len() ==> (#[trigger] rects[i]).ordered(),
        forall|i: int| 0 <= i < tables.len() ==> in_range(#[trigger] tables[i]),
    ensures
        match region_step(cursor(WHAT, region_bytes(rects, tables, count, tiles))) {
            Step::Stop(_) => false,
            Step::Got((region, n, inside), _) => {
                &&& region.rects == rects && all_hold(region.quants, tables) && region.prog.len() == 0
                &&& n == count && inside == tiles
            },
        },
{
    let bytes = region_bytes(rects, tables, count, tiles);
    let c0 = cursor(WHAT, bytes);
    super::wire::front_faces(WHAT, bytes);
    let rest = rects_bytes(rects) + (tables_bytes(tables) + tiles);
    a_region_header_is_next(
        c0,
        rects.len() as u16,
        tables.len() as u8,
        count,
        tiles.len() as u32,
        rest,
    );
    tables_of_a_region_are_next(c0.plus(12), rects, tables, count, tiles);
}

proof fn a_region_header_is_next(c0: Cursor, nr: u16, nq: u8, count: u16, nt: u32, rest: Seq<u8>)
    requires
        c0.faces(
            seq![64u8] + (le16(nr) + (seq![nq] + (seq![0u8] + (seq![1u8] + (le16(count) + (le32(nt) + rest)))))),
        ),
    ensures
        region_step(c0) == region_tables_step(c0.plus(12), nr, nq, 0, 1, count, nt),
        c0.plus(12).faces(rest),
{
    let s6 = le32(nt) + rest;
    let s5 = le16(count) + s6;
    let s4 = seq![1u8] + s5;
    let s3 = seq![0u8] + s4;
    let s2 = seq![nq] + s3;
    let s1 = le16(nr) + s2;
    byte_next(c0, 64, s1);
    let c1 = c0.plus(1);
    word_next(c1, nr, s2);
    let c2 = c1.plus(2);
    byte_next(c2, nq, s3);
    let c3 = c2.plus(1);
    byte_next(c3, 0, s4);
    let c4 = c3.plus(1);
    byte_next(c4, 1, s5);
    let c5 = c4.plus(1);
    word_next(c5, count, s6);
    let c6 = c5.plus(2);
    long_next(c6, nt, rest);
    assert(c6.plus(4) == c0.plus(12));
}

proof fn tables_of_a_region_are_next(c: Cursor, rects: Seq<Rect16>, tables: Seq<Values>, count: u16, tiles: Seq<u8>)
    requires
        1 <= rects.len() <= 0xFFFF,
        tables.len() <= 7,
        tiles.len() <= u32::MAX,
        forall|i: int| 0 <= i < rects.len() ==> (#[trigger] rects[i]).ordered(),
        forall|i: int| 0 <= i < tables.len() ==> in_range(#[trigger] tables[i]),
        c.faces(rects_bytes(rects) + (tables_bytes(tables) + tiles)),
    ensures
        match region_tables_step(
            c,
            rects.len() as u16,
            tables.len() as u8,
            0,
            1,
            count,
            tiles.len() as u32,
        ) {
            Step::Stop(_) => false,
            Step::Got((region, n, inside), _) => {
                &&& region.rects == rects && all_hold(region.quants, tables) && region.prog.len() == 0
                &&& n == count && inside == tiles
            },
        },
{
    rects_are_next(c, rects, seq![], tables_bytes(tables) + tiles);
    assert(seq![] + rects =~= rects);
    let c8 = c.plus(8 * rects.len() as int);
    tables_are_next(c8, tables, seq![], seq![], tiles);
    assert(Seq::<Values>::empty() + tables =~= tables);
    let c9 = c8.plus(5 * tables.len() as int);
    assert(tiles + seq![] =~= tiles);
    bytes_next(c9, tiles, seq![]);
    assert(1u8 & 1u8 == 1) by (bit_vector);
}

/// What opens a tile is what was written: which tables its components use, and which tile
/// it is, counted across and down.
pub proof fn a_tile_opens_as_it_was_written(c: Cursor, h: TileHeader, rest: Seq<u8>)
    requires
        c.faces(
            seq![h.quant_y] + (seq![h.quant_cb] + (seq![h.quant_cr] + (le16(h.x) + (le16(h.y) + rest)))),
        ),
    ensures
        tile_header_step(c) == Step::Got(h, c.plus(7)),
        c.plus(7).faces(rest),
{
    byte_next(c, h.quant_y, seq![h.quant_cb] + (seq![h.quant_cr] + (le16(h.x) + (le16(h.y) + rest))));
    byte_next(c.plus(1), h.quant_cb, seq![h.quant_cr] + (le16(h.x) + (le16(h.y) + rest)));
    byte_next(c.plus(1).plus(1), h.quant_cr, le16(h.x) + (le16(h.y) + rest));
    let d = c.plus(1).plus(1).plus(1);
    word_next(d, h.x, le16(h.y) + rest);
    word_next(d.plus(2), h.y, rest);
    assert(d.plus(2).plus(2) == c.plus(7));
}

/// What a first pass carries is what was written: its flags, its quality unless it is a
/// simple one, which holds nothing back, and its three streams, luma first.
pub proof fn a_first_pass_carries_what_was_written(c: Cursor, simple: bool, flags: u8, quality: u8, data: Three)
    requires
        data.y.len() <= 0xFFFF,
        data.cb.len() <= 0xFFFF,
        data.cr.len() <= 0xFFFF,
        c.faces(
            seq![flags] + ((if simple { seq![] } else { seq![quality] }) + (le16(data.y.len() as u16) + (le16(
                data.cb.len() as u16,
            ) + (le16(data.cr.len() as u16) + (le16(0) + (data.y + (data.cb + data.cr))))))),
        ),
    ensures
        match first_fields_step(c, simple) {
            Step::Stop(_) => false,
            Step::Got(f, next) => f == (FirstFields {
                flags,
                quality: if simple { 255u8 } else { quality },
                data,
            }),
        },
{
    reveal(first_fields_step);
    let (y, cb, cr) = (data.y.len() as u16, data.cb.len() as u16, data.cr.len() as u16);
    let s5 = data.y + (data.cb + data.cr);
    let s4 = le16(0) + s5;
    let s3 = le16(cr) + s4;
    let s2 = le16(cb) + s3;
    let s1 = le16(y) + s2;
    let q: Seq<u8> = if simple { seq![] } else { seq![quality] };
    byte_next(c, flags, q + s1);
    let c1 = c.plus(1);
    let c2 = if simple { c1 } else { c1.plus(1) };
    if simple {
        assert(q + s1 =~= s1);
    } else {
        byte_next(c1, quality, s1);
    }
    word_next(c2, y, s2);
    word_next(c2.plus(2), cb, s3);
    word_next(c2.plus(2).plus(2), cr, s4);
    word_next(c2.plus(2).plus(2).plus(2), 0, s5);
    let d = c2.plus(2).plus(2).plus(2).plus(2);
    bytes_next(d, data.y, data.cb + data.cr);
    bytes_next(d.plus(y as int), data.cb, data.cr);
    assert(data.cr + seq![] =~= data.cr);
    bytes_next(d.plus(y as int).plus(cb as int), data.cr, seq![]);
    let e = d.plus(y as int).plus(cb as int).plus(cr as int);
    assert(e.left() >= 0);
}

/// What an upgrade carries is what was written: its quality, and for each component in turn,
/// luma first, the stream of what has no sign yet and the stream of what has.
pub proof fn an_upgrade_carries_what_was_written(c: Cursor, quality: u8, srl: Three, raw: Three)
    requires
        srl.y.len() <= 0xFFFF && srl.cb.len() <= 0xFFFF && srl.cr.len() <= 0xFFFF,
        raw.y.len() <= 0xFFFF && raw.cb.len() <= 0xFFFF && raw.cr.len() <= 0xFFFF,
        c.faces(
            seq![quality] + (le16(srl.y.len() as u16) + (le16(raw.y.len() as u16) + (le16(srl.cb.len() as u16) + (
            le16(raw.cb.len() as u16) + (le16(srl.cr.len() as u16) + (le16(raw.cr.len() as u16) + (srl.y + (raw.y
                + (srl.cb + (raw.cb + (srl.cr + raw.cr)))))))))))
        ),
    ensures
        match upgrade_fields_step(c) {
            Step::Stop(_) => false,
            Step::Got(f, _) => f == (UpgradeFields { quality, srl, raw }),
        },
{
    reveal(upgrade_fields_step);
    let (a, b, d, e, f, g) = (
        srl.y.len() as u16,
        raw.y.len() as u16,
        srl.cb.len() as u16,
        raw.cb.len() as u16,
        srl.cr.len() as u16,
        raw.cr.len() as u16,
    );
    let t5 = srl.cr + raw.cr;
    let t4 = raw.cb + t5;
    let t3 = srl.cb + t4;
    let t2 = raw.y + t3;
    let t1 = srl.y + t2;
    let s6 = le16(g) + t1;
    let s5 = le16(f) + s6;
    let s4 = le16(e) + s5;
    let s3 = le16(d) + s4;
    let s2 = le16(b) + s3;
    let s1 = le16(a) + s2;
    byte_next(c, quality, s1);
    let c1 = c.plus(1);
    word_next(c1, a, s2);
    let c2 = c1.plus(2);
    word_next(c2, b, s3);
    let c3 = c2.plus(2);
    word_next(c3, d, s4);
    let c4 = c3.plus(2);
    word_next(c4, e, s5);
    let c5 = c4.plus(2);
    word_next(c5, f, s6);
    let c6 = c5.plus(2);
    word_next(c6, g, t1);
    let c7 = c6.plus(2);
    bytes_next(c7, srl.y, t2);
    let c8 = c7.plus(a as int);
    bytes_next(c8, raw.y, t3);
    let c9 = c8.plus(b as int);
    bytes_next(c9, srl.cb, t4);
    let c10 = c9.plus(d as int);
    bytes_next(c10, raw.cb, t5);
    let c11 = c10.plus(e as int);
    bytes_next(c11, srl.cr, raw.cr);
    let c12 = c11.plus(f as int);
    assert(raw.cr + seq![] =~= raw.cr);
    bytes_next(c12, raw.cr, seq![]);
}

} // verus!
