//! Pictures as bytes: four to a pixel, the rows one after another.

use vstd::prelude::*;

verus! {

/// `s` with `bytes` written over it at `at`.
pub open spec fn splice(s: Seq<u8>, at: int, bytes: Seq<u8>) -> Seq<u8> {
    Seq::new(s.len(), |i: int| if at <= i < at + bytes.len() { bytes[i - at] } else { s[i] })
}

pub fn overwrite(pixels: &mut [u8], at: usize, bytes: &[u8])
    requires
        at + bytes@.len() <= old(pixels)@.len(),
    ensures
        final(pixels)@ == splice(old(pixels)@, at as int, bytes@),
{
    let len: usize = pixels.len();
    for i in 0..bytes.len()
        invariant
            at + bytes@.len() <= len,
            len == old(pixels)@.len(),
            pixels@.len() == len,
            pixels@ == splice(old(pixels)@, at as int, bytes@.take(i as int)),
    {
        pixels[at + i] = bytes[i];
        assert(pixels@ =~= splice(old(pixels)@, at as int, bytes@.take(i + 1)));
    }
    assert(bytes@.take(bytes@.len() as int) =~= bytes@);
}

/// Where the pixel at (`x`, `y`) of a picture `width` wide starts.
pub open spec fn place(width: int, x: int, y: int) -> int {
    4 * (y * width + x)
}

/// The pixel at (`x`, `y`) of a picture `width` wide.
pub open spec fn pixel_at(pixels: Seq<u8>, width: int, x: int, y: int) -> Seq<u8> {
    pixels.subrange(place(width, x, y), place(width, x, y) + 4)
}

/// A run of pixels in one row lies inside the picture.
pub proof fn row_is_inside(width: int, height: int, x: int, y: int, n: int)
    requires
        0 <= x,
        0 <= n,
        x + n <= width,
        0 <= y < height,
    ensures
        0 <= y * width,
        0 <= place(width, x, y),
        place(width, x, y) + 4 * n <= 4 * (width * height),
{
    assert(0 <= y * width && y * width + width <= width * height) by (nonlinear_arith)
        requires
            0 <= y < height,
            0 <= width,
    ;
}

/// Pixels of a row and a pixel that is not one of them have no byte in common.
pub proof fn pixels_are_apart(width: int, x0: int, y0: int, n: int, x: int, y: int)
    requires
        0 <= x0,
        0 <= n,
        x0 + n <= width,
        0 <= x < width,
        y != y0 || x < x0 || x >= x0 + n,
    ensures
        place(width, x, y) + 4 <= place(width, x0, y0) || place(width, x0, y0) + 4 * n <= place(
            width,
            x,
            y,
        ),
{
    if y < y0 {
        assert(y * width + width <= y0 * width) by (nonlinear_arith)
            requires
                0 <= width,
                y + 1 <= y0,
        ;
    } else if y > y0 {
        assert(y0 * width + width <= y * width) by (nonlinear_arith)
            requires
                0 <= width,
                y0 + 1 <= y,
        ;
    }
}

/// `n` zero bytes.
pub fn zeroed(n: usize) -> (v: Vec<u8>)
    ensures
        v@ == Seq::new(n as nat, |i: int| 0u8),
{
    let v: Vec<u8> = vec![0u8; n];
    assert(v@ =~= Seq::new(n as nat, |i: int| 0u8));
    v
}

} // verus!
