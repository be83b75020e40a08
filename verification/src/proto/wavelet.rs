//! The reduce-extrapolate inverse wavelet, [MS-RDPEGFX] 3.3.8.1.4, and the colours its
//! output stands for.
//!
//! A component is 4096 coefficients in ten sub-bands. Three times over, the four
//! sub-bands of a level become the low sub-band of the level above, until what is left
//! is a 64 by 64 picture. Every arithmetic step is the codec's own: values are held to
//! sixteen bits by clamping, and a half is rounded towards zero.

use vstd::arithmetic::div_mod::lemma_fundamental_div_mod_converse;
use vstd::prelude::*;
use vstd::slice::slice_subrange;

use super::bits::{clamp16, clamp16_spec, half, halve};

verus! {

/// Tile edge, in pixels. The only size the codec has ever had.
pub const TILE: usize = 64;
/// Coefficients per component of a tile.
pub const COEFFS: usize = 4096;
/// Where the second and the third level start among the coefficients.
pub const LEVEL2: usize = 3007;
pub const LEVEL3: usize = 3807;

/// The output at an even place of a line.
pub open spec fn even(low: Seq<i16>, high: Seq<i16>, i: int) -> i16 {
    if i == 0 {
        clamp16_spec(low[0] - high[0])
    } else if i < high.len() {
        clamp16_spec(low[i] - half(high[i - 1] + high[i]))
    } else if low.len() == high.len() + 1 {
        clamp16_spec(low[i] - high[i - 1])
    } else {
        clamp16_spec(low[i] - half(high[i - 1] as int))
    }
}

/// The output at an odd place of a line.
pub open spec fn odd(low: Seq<i16>, high: Seq<i16>, i: int) -> i16 {
    if i == high.len() {
        clamp16_spec(half(even(low, high, i) + low[i + 1]))
    } else if i + 1 < low.len() {
        clamp16_spec(half(even(low, high, i) + even(low, high, i + 1)) + 2 * high[i])
    } else {
        clamp16_spec(even(low, high, i) + 2 * high[i])
    }
}

/// One line of the inverse transform: its low and high samples as that many outputs.
/// The last few depend on how the encoder padded the line, which the counts encode.
pub open spec fn line_spec(low: Seq<i16>, high: Seq<i16>) -> Seq<i16> {
    Seq::new(
        (low.len() + high.len()) as nat,
        |k: int| if k % 2 == 0 { even(low, high, k / 2) } else { odd(low, high, k / 2) },
    )
}

/// The counts a line can have.
pub open spec fn line_counts(low: nat, high: nat) -> bool {
    1 <= high <= low <= high + 2
}

fn even_at(low: &[i16], high: &[i16], i: usize) -> (r: i16)
    requires
        line_counts(low@.len(), high@.len()),
        i < low@.len(),
        i <= high@.len(),
    ensures
        r == even(low@, high@, i as int),
{
    if i == 0 {
        clamp16(low[0] as i32 - high[0] as i32)
    } else if i < high.len() {
        clamp16(low[i] as i32 - halve(high[i - 1] as i32 + high[i] as i32))
    } else if low.len() == high.len() + 1 {
        clamp16(low[i] as i32 - high[i - 1] as i32)
    } else {
        clamp16(low[i] as i32 - halve(high[i - 1] as i32))
    }
}

pub fn line(low: &[i16], high: &[i16]) -> (out: Vec<i16>)
    requires
        line_counts(low@.len(), high@.len()),
        low@.len() <= TILE,
    ensures
        out@ == line_spec(low@, high@),
{
    let mut out: Vec<i16> = Vec::with_capacity(low.len() + high.len());
    let mut here: i16 = even_at(low, high, 0);
    for i in 0..high.len()
        invariant
            line_counts(low@.len(), high@.len()),
            i < low@.len() ==> here == even(low@, high@, i as int),
            out@.len() == 2 * i,
            forall|k: int| 0 <= k < out@.len() ==> out@[k] == line_spec(low@, high@)[k],
    {
        out.push(here);
        assert(out@[2 * i] == line_spec(low@, high@)[2 * i]);
        if i + 1 < low.len() {
            let next: i16 = even_at(low, high, i + 1);
            out.push(clamp16(halve(here as i32 + next as i32) + 2 * high[i] as i32));
            here = next;
        } else {
            out.push(clamp16(here as i32 + 2 * high[i] as i32));
        }
        assert(out@[2 * i + 1] == line_spec(low@, high@)[2 * i + 1]);
    }
    if low.len() > high.len() {
        out.push(here);
    }
    if low.len() == high.len() + 2 {
        out.push(clamp16(halve(here as i32 + low[high.len() + 1] as i32)));
    }
    assert(out@ =~= line_spec(low@, high@));
    out
}

/// The sides of the sub-bands at the three levels.
pub open spec fn sides(l: int, h: int) -> bool {
    (l == 33 && h == 31) || (l == 17 && h == 16) || (l == 9 && h == 8)
}

/// A row of the picture's low half: a row of LL with the row of HL beside it.
pub open spec fn low_row(buf: Seq<i16>, l: int, h: int, row: int) -> Seq<i16> {
    let ll = 2 * (h * l) + h * h;
    line_spec(
        buf.subrange(ll + row * l, ll + row * l + l),
        buf.subrange(row * h, row * h + h),
    )
}

/// A row of the picture's high half: a row of LH with the row of HH beside it.
pub open spec fn high_row(buf: Seq<i16>, l: int, h: int, row: int) -> Seq<i16> {
    let lh = h * l;
    let hh = 2 * (h * l);
    line_spec(
        buf.subrange(lh + row * l, lh + row * l + l),
        buf.subrange(hh + row * h, hh + row * h + h),
    )
}

/// A column of the level above: a column of the low half over one of the high half.
pub open spec fn column(buf: Seq<i16>, l: int, h: int, col: int) -> Seq<i16> {
    line_spec(
        Seq::new(l as nat, |row: int| low_row(buf, l, h, row)[col]),
        Seq::new(h as nat, |row: int| high_row(buf, l, h, row)[col]),
    )
}

/// One level: the HL, LH, HH and LL sub-bands become the LL of the level above.
pub open spec fn level_spec(buf: Seq<i16>, l: int, h: int) -> Seq<i16> {
    let step = l + h;
    Seq::new((step * step) as nat, |j: int| column(buf, l, h, j % step)[j / step])
}

/// The whole inverse transform of a component.
pub open spec fn idwt_spec(s: Seq<i16>) -> Seq<i16> {
    let third = s.take(LEVEL3 as int) + level_spec(s.skip(LEVEL3 as int), 9, 8);
    let second = third.take(LEVEL2 as int) + level_spec(third.skip(LEVEL2 as int), 17, 16);
    level_spec(second, 33, 31)
}

/// Every row the transform reads lies inside its sub-band, and the sub-bands tile the
/// level.
proof fn row_bounds(l: int, h: int, row: int)
    requires
        sides(l, h),
        row >= 0,
    ensures
        row < l ==> row * l + l <= l * l && row * h + h <= h * l,
        row < h ==> row * l + l <= h * l && row * h + h <= h * h,
        0 <= row * l,
        0 <= row * h,
        0 <= h * l,
        0 <= h * h,
        2 * (h * l) + h * h + l * l == (l + h) * (l + h),
        (l + h) * (l + h) <= COEFFS,
{
    assert(row < l ==> row * l + l <= l * l && row * h + h <= h * l) by (nonlinear_arith)
        requires
            0 <= row,
            0 < h < l,
    ;
    assert(row < h ==> row * l + l <= h * l && row * h + h <= h * h) by (nonlinear_arith)
        requires
            0 <= row,
            0 < h < l,
    ;
    assert(0 <= row * l && 0 <= row * h && 0 <= h * l && 0 <= h * h) by (nonlinear_arith)
        requires
            0 <= row,
            0 < h < l,
    ;
    assert(2 * (h * l) + h * h + l * l == (l + h) * (l + h)) by (nonlinear_arith);
    assert((l + h) * (l + h) <= 4096) by (nonlinear_arith)
        requires
            0 <= l + h <= 64,
    ;
}

fn gather(rows: &Vec<Vec<i16>>, col: usize) -> (out: Vec<i16>)
    requires
        forall|r: int| 0 <= r < rows@.len() ==> col < (#[trigger] rows@[r])@.len(),
    ensures
        out@ == Seq::new(rows@.len(), |r: int| rows@[r]@[col as int]),
{
    let mut out: Vec<i16> = Vec::with_capacity(rows.len());
    for r in 0..rows.len()
        invariant
            forall|i: int| 0 <= i < rows@.len() ==> col < (#[trigger] rows@[i])@.len(),
            out@ == Seq::new(r as nat, |i: int| rows@[i]@[col as int]),
    {
        out.push(rows[r][col]);
        assert(out@ =~= Seq::new((r + 1) as nat, |i: int| rows@[i]@[col as int]));
    }
    out
}

pub fn level(buf: &[i16], l: usize, h: usize) -> (out: Vec<i16>)
    requires
        sides(l as int, h as int),
        buf@.len() == (l + h) * (l + h),
    ensures
        out@ == level_spec(buf@, l as int, h as int),
        out@.len() == buf@.len(),
{
    let step: usize = l + h;
    proof { row_bounds(l as int, h as int, 0); }
    let lh: usize = h * l;
    let hh: usize = 2 * (h * l);
    let ll: usize = hh + h * h;
    let mut low: Vec<Vec<i16>> = Vec::with_capacity(l);
    for row in 0..l
        invariant
            sides(l as int, h as int),
            buf@.len() == (l + h) * (l + h),
            ll == 2 * (h * l) + h * h,
            low@.len() == row,
            forall|r: int| 0 <= r < row ==> (#[trigger] low@[r])@ == low_row(buf@, l as int, h as int, r),
    {
        proof { row_bounds(l as int, h as int, row as int); }
        low.push(
            line(
                slice_subrange(buf, ll + row * l, ll + row * l + l),
                slice_subrange(buf, row * h, row * h + h),
            ),
        );
    }
    let mut high: Vec<Vec<i16>> = Vec::with_capacity(h);
    for row in 0..h
        invariant
            sides(l as int, h as int),
            buf@.len() == (l + h) * (l + h),
            lh == h * l,
            hh == 2 * (h * l),
            high@.len() == row,
            forall|r: int| 0 <= r < row ==> (#[trigger] high@[r])@ == high_row(buf@, l as int, h as int, r),
    {
        proof { row_bounds(l as int, h as int, row as int); }
        high.push(
            line(
                slice_subrange(buf, lh + row * l, lh + row * l + l),
                slice_subrange(buf, hh + row * h, hh + row * h + h),
            ),
        );
    }
    let mut columns: Vec<Vec<i16>> = Vec::with_capacity(step);
    for col in 0..step
        invariant
            sides(l as int, h as int),
            buf@.len() == (l + h) * (l + h),
            step == l + h,
            low@.len() == l,
            high@.len() == h,
            forall|r: int| 0 <= r < l ==> (#[trigger] low@[r])@ == low_row(buf@, l as int, h as int, r),
            forall|r: int| 0 <= r < h ==> (#[trigger] high@[r])@ == high_row(buf@, l as int, h as int, r),
            columns@.len() == col,
            forall|c: int| 0 <= c < col ==> (#[trigger] columns@[c])@ == column(buf@, l as int, h as int, c),
    {
        proof {
            row_lengths(buf@, l as int, h as int);
        }
        let below = gather(&low, col);
        let above = gather(&high, col);
        assert(below@ =~= Seq::new(l as nat, |r: int| low_row(buf@, l as int, h as int, r)[col as int]));
        assert(above@ =~= Seq::new(h as nat, |r: int| high_row(buf@, l as int, h as int, r)[col as int]));
        columns.push(line(below.as_slice(), above.as_slice()));
    }
    let mut out: Vec<i16> = Vec::with_capacity(step * step);
    for row in 0..step
        invariant
            sides(l as int, h as int),
            step == l + h,
            columns@.len() == step,
            forall|c: int| 0 <= c < step ==> (#[trigger] columns@[c])@ == column(buf@, l as int, h as int, c),
            out@.len() == row * step,
            forall|j: int| 0 <= j < out@.len() ==> out@[j] == column(buf@, l as int, h as int, j % (step as int))[j / (step as int)],
    {
        for col in 0..step
            invariant
                sides(l as int, h as int),
                step == l + h,
                row < step,
                columns@.len() == step,
                forall|c: int| 0 <= c < step ==> (#[trigger] columns@[c])@ == column(buf@, l as int, h as int, c),
                out@.len() == row * step + col,
                forall|j: int| 0 <= j < out@.len() ==> out@[j] == column(buf@, l as int, h as int, j % (step as int))[j / (step as int)],
        {
            proof {
                lemma_fundamental_div_mod_converse(row * step + col, step as int, row as int, col as int);
            }
            out.push(columns[col][row]);
        }
        assert((row + 1) * step == row * step + step) by (nonlinear_arith);
    }
    assert(out@ =~= level_spec(buf@, l as int, h as int));
    out
}

/// Every row of either half is as long as the picture is wide.
proof fn row_lengths(buf: Seq<i16>, l: int, h: int)
    requires
        sides(l, h),
        buf.len() == (l + h) * (l + h),
    ensures
        forall|row: int| 0 <= row < l ==> (#[trigger] low_row(buf, l, h, row)).len() == l + h,
        forall|row: int| 0 <= row < h ==> (#[trigger] high_row(buf, l, h, row)).len() == l + h,
{
    assert forall|row: int| 0 <= row < l implies (#[trigger] low_row(buf, l, h, row)).len() == l + h by {
        row_bounds(l, h, row);
    }
    assert forall|row: int| 0 <= row < h implies (#[trigger] high_row(buf, l, h, row)).len() == l + h by {
        row_bounds(l, h, row);
    }
}

/// Replace the end of a component by one level's worth of transform.
fn raise(buf: &mut Vec<i16>, at: usize, l: usize, h: usize)
    requires
        sides(l as int, h as int),
        old(buf)@.len() == at + (l + h) * (l + h),
    ensures
        final(buf)@ == old(buf)@.take(at as int) + level_spec(old(buf)@.skip(at as int), l as int, h as int),
        final(buf)@.len() == old(buf)@.len(),
{
    let tail = slice_subrange(buf.as_slice(), at, buf.len());
    assert(tail@ =~= buf@.skip(at as int));
    let raised = level(tail, l, h);
    buf.truncate(at);
    buf.extend_from_slice(raised.as_slice());
    assert(buf@ =~= old(buf)@.take(at as int) + raised@);
}

/// The inverse wavelet over one component, three levels.
pub fn idwt(coeffs: &[i16]) -> (out: Vec<i16>)
    requires
        coeffs@.len() == COEFFS,
    ensures
        out@ == idwt_spec(coeffs@),
        out@.len() == COEFFS,
{
    let mut buf: Vec<i16> = Vec::with_capacity(COEFFS);
    buf.extend_from_slice(coeffs);
    assert(buf@ =~= coeffs@);
    raise(&mut buf, LEVEL3, 9, 8);
    raise(&mut buf, LEVEL2, 17, 16);
    level(buf.as_slice(), 33, 31)
}

/// A colour held to a byte.
pub open spec fn clip_spec(v: int) -> u8 {
    (if v < 0 { 0 } else if v > 255 { 255 } else { v }) as u8
}

/// One pixel as `BGRX`, from 11.5 fixed-point YCbCr.
pub open spec fn bgrx(y: i16, cb: i16, cr: i16) -> Seq<u8> {
    let y = (y + 4096) * 0x1_0000;
    seq![
        clip_spec((cb * 115992 + y) / 0x1_0000 / 32),
        clip_spec((y - cb * 22527 - cr * 46819) / 0x1_0000 / 32),
        clip_spec((cr * 91916 + y) / 0x1_0000 / 32),
        0u8,
    ]
}

/// A tile's pixels, from its three transformed components.
pub open spec fn pixels_spec(y: Seq<i16>, cb: Seq<i16>, cr: Seq<i16>) -> Seq<u8> {
    Seq::new((4 * y.len()) as nat, |j: int| bgrx(y[j / 4], cb[j / 4], cr[j / 4])[j % 4])
}

fn clip(v: i64) -> (r: u8)
    ensures
        r == clip_spec(v as int / 0x1_0000 / 32),
{
    if v < 0 {
        assert(v as int / 0x1_0000 < 0);
        return 0;
    }
    let q: i64 = v / 0x20_0000;
    assert(q as int == v as int / 0x1_0000 / 32);
    if q > 255 { 255 } else { q as u8 }
}

/// The three transformed components to a tile of `BGRX32`.
pub fn to_bgrx(y: &[i16], cb: &[i16], cr: &[i16]) -> (pixels: Vec<u8>)
    requires
        y@.len() == COEFFS,
        cb@.len() == COEFFS,
        cr@.len() == COEFFS,
    ensures
        pixels@ == pixels_spec(y@, cb@, cr@),
        pixels@.len() == 4 * COEFFS,
{
    let mut out: Vec<u8> = Vec::with_capacity(4 * COEFFS);
    for i in 0..COEFFS
        invariant
            y@.len() == COEFFS,
            cb@.len() == COEFFS,
            cr@.len() == COEFFS,
            out@.len() == 4 * i,
            forall|j: int| 0 <= j < out@.len() ==> out@[j] == bgrx(y@[j / 4], cb@[j / 4], cr@[j / 4])[j % 4],
    {
        let luma: i64 = (y[i] as i64 + 4096) * 0x1_0000;
        let (blue, red) = (cb[i] as i64, cr[i] as i64);
        out.push(clip(blue * 115992 + luma));
        out.push(clip(luma - blue * 22527 - red * 46819));
        out.push(clip(red * 91916 + luma));
        out.push(0);
    }
    assert(out@ =~= pixels_spec(y@, cb@, cr@));
    out
}

/// A line with nothing in its high half is as flat as its low half.
pub proof fn a_flat_line_is_flat(low: Seq<i16>, high: Seq<i16>, v: i16)
    requires
        line_counts(low.len(), high.len()),
        forall|i: int| 0 <= i < low.len() ==> low[i] == v,
        forall|i: int| 0 <= i < high.len() ==> high[i] == 0,
    ensures
        forall|k: int| 0 <= k < low.len() + high.len() ==> line_spec(low, high)[k] == v,
{
}

/// A level whose LL is flat and whose other sub-bands are empty comes out flat.
proof fn a_flat_level_is_flat(buf: Seq<i16>, l: int, h: int, v: i16)
    requires
        sides(l, h),
        buf.len() == (l + h) * (l + h),
        forall|i: int| 0 <= i < 2 * (h * l) + h * h ==> buf[i] == 0,
        forall|i: int| 2 * (h * l) + h * h <= i < buf.len() ==> buf[i] == v,
    ensures
        level_spec(buf, l, h).len() == buf.len(),
        forall|j: int| 0 <= j < buf.len() ==> level_spec(buf, l, h)[j] == v,
{
    let step = l + h;
    assert forall|row: int, col: int| 0 <= row < l && 0 <= col < step implies #[trigger] low_row(buf, l, h, row)[col] == v by {
        row_bounds(l, h, row);
        let ll = 2 * (h * l) + h * h;
        a_flat_line_is_flat(buf.subrange(ll + row * l, ll + row * l + l), buf.subrange(row * h, row * h + h), v);
    }
    assert forall|row: int, col: int| 0 <= row < h && 0 <= col < step implies #[trigger] high_row(buf, l, h, row)[col] == 0 by {
        row_bounds(l, h, row);
        let (lh, hh) = (h * l, 2 * (h * l));
        a_flat_line_is_flat(buf.subrange(lh + row * l, lh + row * l + l), buf.subrange(hh + row * h, hh + row * h + h), 0);
    }
    assert forall|j: int| 0 <= j < buf.len() implies level_spec(buf, l, h)[j] == v by {
        let (col, row) = (j % step, j / step);
        assert(0 <= col < step && 0 <= row < step) by (nonlinear_arith)
            requires
                0 <= j < step * step,
                step > 0,
                col == j % step,
                row == j / step,
        ;
        let below = Seq::new(l as nat, |r: int| low_row(buf, l, h, r)[col]);
        let above = Seq::new(h as nat, |r: int| high_row(buf, l, h, r)[col]);
        a_flat_line_is_flat(below, above, v);
        assert(column(buf, l, h, col)[row] == v);
    }
}

/// A component that holds one value in its coarsest sub-band and nothing finer is that
/// value everywhere: every level of the transform agrees on a constant.
pub proof fn a_flat_component_is_flat(s: Seq<i16>, v: i16)
    requires
        s.len() == COEFFS,
        forall|i: int| 0 <= i < 4015 ==> s[i] == 0,
        forall|i: int| 4015 <= i < COEFFS ==> s[i] == v,
    ensures
        idwt_spec(s).len() == COEFFS,
        forall|j: int| 0 <= j < COEFFS ==> idwt_spec(s)[j] == v,
{
    assert((9 + 8) * (9 + 8) == 289 && 2 * (8 * 9) + 8 * 8 == 208) by (nonlinear_arith);
    assert((17 + 16) * (17 + 16) == 1089 && 2 * (16 * 17) + 16 * 16 == 800) by (nonlinear_arith);
    assert((33 + 31) * (33 + 31) == 4096 && 2 * (31 * 33) + 31 * 31 == 3007) by (nonlinear_arith);
    a_flat_level_is_flat(s.skip(LEVEL3 as int), 9, 8, v);
    let third = s.take(LEVEL3 as int) + level_spec(s.skip(LEVEL3 as int), 9, 8);
    a_flat_level_is_flat(third.skip(LEVEL2 as int), 17, 16, v);
    let second = third.take(LEVEL2 as int) + level_spec(third.skip(LEVEL2 as int), 17, 16);
    a_flat_level_is_flat(second, 33, 31, v);
}

/// Whether a byte is a colour of this brightness, which counts 2097152 to each step of a
/// byte: the step it falls in, or the nearest end where it falls outside them all.
pub open spec fn is_step(byte: u8, brightness: int) -> bool {
    if brightness < 0 {
        byte == 0
    } else if brightness >= 0x2000_0000 {
        byte == 255
    } else {
        byte * 0x20_0000 <= brightness < (byte + 1) * 0x20_0000
    }
}

proof fn clipping_finds_the_step(v: int)
    ensures
        is_step(clip_spec(v / 0x1_0000 / 32), v),
{
    let q = v / 0x1_0000;
    assert(0x1_0000 * q <= v < 0x1_0000 * q + 0x1_0000);
    assert(32 * (q / 32) <= q < 32 * (q / 32) + 32);
}

/// A pixel is blue, green, red and a byte of nothing. Its blue is its luma and its blue
/// difference, its red is its luma and its red difference, and its green is its luma less
/// some of both, in the proportions of the colour model.
pub proof fn a_pixel_is_its_three_samples(y: Seq<i16>, cb: Seq<i16>, cr: Seq<i16>, i: int)
    requires
        0 <= i < y.len(),
    ensures
        ({
            let pixels = pixels_spec(y, cb, cr);
            let luma = 65536 * (y[i] + 4096);
            &&& pixels.len() == 4 * y.len()
            &&& is_step(pixels[4 * i], luma + 115992 * cb[i])
            &&& is_step(pixels[4 * i + 1], luma - 22527 * cb[i] - 46819 * cr[i])
            &&& is_step(pixels[4 * i + 2], luma + 91916 * cr[i])
            &&& pixels[4 * i + 3] == 0
        }),
{
    let (b, r) = (cb[i] as int, cr[i] as int);
    let luma = (y[i] + 4096) * 0x1_0000;
    clipping_finds_the_step(b * 115992 + luma);
    clipping_finds_the_step(luma - b * 22527 - r * 46819);
    clipping_finds_the_step(r * 91916 + luma);
}

/// The blue of a pixel does not depend on its red difference, nor its red on its blue
/// difference; with neither difference a pixel is grey, of the brightness of its luma; more
/// of a difference is never less of its colour; and no pixel depends on another's samples.
pub proof fn a_colour_follows_its_own_difference(
    y: Seq<i16>,
    cb: Seq<i16>,
    cr: Seq<i16>,
    other_y: Seq<i16>,
    other_cb: Seq<i16>,
    other_cr: Seq<i16>,
    i: int,
)
    requires
        0 <= i < y.len(),
        0 <= i < other_y.len(),
        y[i] == other_y[i],
    ensures
        ({
            let (one, other) = (pixels_spec(y, cb, cr), pixels_spec(other_y, other_cb, other_cr));
            &&& cb[i] == other_cb[i] ==> one[4 * i] == other[4 * i]
            &&& cr[i] == other_cr[i] ==> one[4 * i + 2] == other[4 * i + 2]
            &&& cb[i] == other_cb[i] && cr[i] == other_cr[i] ==> one[4 * i + 1] == other[4 * i + 1]
            &&& cb[i] <= other_cb[i] ==> one[4 * i] <= other[4 * i]
            &&& cr[i] <= other_cr[i] ==> one[4 * i + 2] <= other[4 * i + 2]
            &&& cb[i] <= other_cb[i] && cr[i] <= other_cr[i] ==> one[4 * i + 1] >= other[4 * i + 1]
            &&& cb[i] == 0 && cr[i] == 0 && 0 <= y[i] + 4096 < 8192 ==> {
                &&& one[4 * i] == (y[i] + 4096) / 32
                &&& one[4 * i + 1] == one[4 * i] && one[4 * i + 2] == one[4 * i]
            }
        }),
{
    a_pixel_is_its_three_samples(y, cb, cr, i);
    a_pixel_is_its_three_samples(other_y, other_cb, other_cr, i);
}

/// A number halved, rounded towards zero.
pub open spec fn halved_towards_zero(n: int) -> int {
    if n < 0 { -((-n) / 2) } else { n / 2 }
}

/// What a line is made of can be got back from it: each high sample is half of what the odd
/// sample at its place differs by from the middle of its two neighbours, and each low sample
/// is the even sample at its place and the middle of the high samples on either side. At
/// the ends the one neighbour there is stands for both, or the padding does. This holds of
/// samples small enough that none is held to sixteen bits.
pub proof fn a_line_gives_back_what_it_is_made_of(low: Seq<i16>, high: Seq<i16>, i: int)
    requires
        line_counts(low.len(), high.len()),
        forall|k: int| 0 <= k < low.len() ==> -4000 <= #[trigger] low[k] <= 4000,
        forall|k: int| 0 <= k < high.len() ==> -4000 <= #[trigger] high[k] <= 4000,
        0 <= i < low.len(),
    ensures
        ({
            let out = line_spec(low, high);
            let (l, h) = (low.len(), high.len());
            &&& out.len() == l + h
            &&& i == 0 ==> low[0] == out[0] + high[0]
            &&& 0 < i < h ==> low[i] == out[2 * i] + halved_towards_zero(high[i - 1] + high[i])
            &&& 0 < i == h && l == h + 1 ==> low[i] == out[2 * i] + high[i - 1]
            &&& 0 < i == h && l == h + 2 ==> low[i] == out[2 * i] + halved_towards_zero(high[i - 1] as int)
            &&& i == h + 1 ==> out[2 * i - 1] == halved_towards_zero(out[2 * i - 2] + low[i])
            &&& i < h && i + 1 < l ==> 2 * high[i] == out[2 * i + 1] - halved_towards_zero(
                out[2 * i] + out[2 * i + 2],
            )
            &&& i < h && i + 1 == l ==> 2 * high[i] == out[2 * i + 1] - out[2 * i]
        }),
{
    let out = line_spec(low, high);
    let (l, h) = (low.len(), high.len());
    if i <= h {
        assert((2 * i) / 2 == i && (2 * i) % 2 == 0);
        if 2 * i < l + h {
            assert(out[2 * i] == even(low, high, i));
        }
    }
    if i + 1 < l && i + 1 <= h {
        assert((2 * i + 2) / 2 == i + 1 && (2 * i + 2) % 2 == 0);
        assert(out[2 * i + 2] == even(low, high, i + 1));
    }
    if i < h {
        assert((2 * i + 1) / 2 == i && (2 * i + 1) % 2 == 1);
        assert(out[2 * i + 1] == odd(low, high, i));
    }
    if i == h + 1 {
        assert((2 * i - 1) / 2 == h && (2 * i - 1) % 2 == 1);
        assert((2 * i - 2) / 2 == h && (2 * i - 2) % 2 == 0);
        assert(out[2 * i - 1] == odd(low, high, h as int));
        assert(out[2 * i - 2] == even(low, high, h as int));
    }
}

/// A level with no detail from side to side is flat along its rows: its first and third
/// sub-bands are what differs from side to side, and the rows of the second and of the last
/// are those of the picture.
pub proof fn a_level_with_no_detail_across_is_flat_across(buf: Seq<i16>, l: int, h: int, row: int, col: int)
    requires
        sides(l, h),
        buf.len() == (l + h) * (l + h),
        forall|i: int| 0 <= i < h * l ==> buf[i] == 0,
        forall|i: int| 2 * (h * l) <= i < 2 * (h * l) + h * h ==> buf[i] == 0,
        forall|r: int, k: int|
            #![trigger buf[h * l + (r * l + k)]]
            0 <= r < h && 0 <= k < l ==> buf[h * l + (r * l + k)] == buf[h * l + r * l],
        forall|r: int, k: int|
            #![trigger buf[2 * (h * l) + h * h + (r * l + k)]]
            0 <= r < l && 0 <= k < l ==> buf[2 * (h * l) + h * h + (r * l + k)] == buf[2 * (h * l) + h * h + r * l],
        0 <= row < l + h,
        0 <= col < l + h,
    ensures
        level_spec(buf, l, h)[row * (l + h) + col] == level_spec(buf, l, h)[row * (l + h)],
{
    let step = l + h;
    let (ll, lh, hh) = (2 * (h * l) + h * h, h * l, 2 * (h * l));
    row_bounds(l, h, 0);
    assert forall|r: int, c: int| 0 <= r < l && 0 <= c < step implies #[trigger] low_row(buf, l, h, r)[c]
        == buf[ll + r * l] by {
        row_bounds(l, h, r);
        let low = buf.subrange(ll + r * l, ll + r * l + l);
        assert forall|k: int| 0 <= k < low.len() implies low[k] == buf[ll + r * l] by {
            assert(low[k] == buf[ll + (r * l + k)]);
        }
        a_flat_line_is_flat(low, buf.subrange(r * h, r * h + h), buf[ll + r * l]);
    }
    assert forall|r: int, c: int| 0 <= r < h && 0 <= c < step implies #[trigger] high_row(buf, l, h, r)[c]
        == buf[lh + r * l] by {
        row_bounds(l, h, r);
        let low = buf.subrange(lh + r * l, lh + r * l + l);
        assert forall|k: int| 0 <= k < low.len() implies low[k] == buf[lh + r * l] by {
            assert(low[k] == buf[lh + (r * l + k)]);
        }
        a_flat_line_is_flat(low, buf.subrange(hh + r * h, hh + r * h + h), buf[lh + r * l]);
    }
    assert(Seq::new(l as nat, |r: int| low_row(buf, l, h, r)[col]) =~= Seq::new(
        l as nat,
        |r: int| low_row(buf, l, h, r)[0],
    ));
    assert(Seq::new(h as nat, |r: int| high_row(buf, l, h, r)[col]) =~= Seq::new(
        h as nat,
        |r: int| high_row(buf, l, h, r)[0],
    ));
    places_come_apart(step, row, col);
    places_come_apart(step, row, 0);
}

proof fn places_come_apart(step: int, row: int, col: int)
    requires
        0 < step,
        0 <= row < step,
        0 <= col < step,
    ensures
        0 <= row * step + col < step * step,
        (row * step + col) % step == col,
        (row * step + col) / step == row,
{
    lemma_fundamental_div_mod_converse(row * step + col, step, row, col);
    assert(0 <= row * step + col < step * step) by (nonlinear_arith)
        requires
            0 <= row,
            row + 1 <= step,
            0 <= col < step,
    ;
}

/// A level with no detail from top to bottom is flat along its columns: its second and third
/// sub-bands are what differs from top to bottom.
pub proof fn a_level_with_no_detail_down_is_flat_down(buf: Seq<i16>, l: int, h: int, row: int, col: int)
    requires
        sides(l, h),
        buf.len() == (l + h) * (l + h),
        forall|i: int| h * l <= i < 2 * (h * l) + h * h ==> buf[i] == 0,
        forall|r: int, k: int|
            #![trigger buf[r * h + k]]
            0 <= r < l && 0 <= k < h ==> buf[r * h + k] == buf[k],
        forall|r: int, k: int|
            #![trigger buf[2 * (h * l) + h * h + (r * l + k)]]
            0 <= r < l && 0 <= k < l ==> buf[2 * (h * l) + h * h + (r * l + k)] == buf[2 * (h * l) + h * h + k],
        0 <= row < l + h,
        0 <= col < l + h,
    ensures
        level_spec(buf, l, h)[row * (l + h) + col] == level_spec(buf, l, h)[col],
{
    let step = l + h;
    let (ll, lh, hh) = (2 * (h * l) + h * h, h * l, 2 * (h * l));
    row_bounds(l, h, 0);
    assert(0 * l == 0 && 0 * h == 0) by (nonlinear_arith);
    assert forall|r: int| 0 <= r < l implies #[trigger] low_row(buf, l, h, r) == low_row(buf, l, h, 0) by {
        row_bounds(l, h, r);
        let (low, high) = (buf.subrange(ll + r * l, ll + r * l + l), buf.subrange(r * h, r * h + h));
        let (low0, high0) = (buf.subrange(ll, ll + l), buf.subrange(0, h));
        assert forall|k: int| 0 <= k < l implies low[k] == low0[k] by {
            assert(low[k] == buf[ll + (r * l + k)]);
        }
        assert(low =~= low0);
        assert forall|k: int| 0 <= k < h implies high[k] == high0[k] by {
            assert(high[k] == buf[r * h + k]);
        }
        assert(high =~= high0);
    }
    assert forall|r: int, c: int| 0 <= r < h && 0 <= c < step implies #[trigger] high_row(buf, l, h, r)[c] == 0 by {
        row_bounds(l, h, r);
        a_flat_line_is_flat(
            buf.subrange(lh + r * l, lh + r * l + l),
            buf.subrange(hh + r * h, hh + r * h + h),
            0,
        );
    }
    let v = low_row(buf, l, h, 0)[col];
    let below = Seq::new(l as nat, |r: int| low_row(buf, l, h, r)[col]);
    let above = Seq::new(h as nat, |r: int| high_row(buf, l, h, r)[col]);
    assert forall|r: int| 0 <= r < l implies below[r] == v by {
        assert(low_row(buf, l, h, r) == low_row(buf, l, h, 0));
    }
    a_flat_line_is_flat(below, above, v);
    places_come_apart(step, row, col);
    places_come_apart(step, 0, col);
    assert(0 * step + col == col);
}

} // verus!
