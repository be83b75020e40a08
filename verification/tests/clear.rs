use rdp_client::proto::clear::{Canvas, Clear, FLAG_GLYPH_HIT, FLAG_GLYPH_INDEX};
use rdp_client::proto::wire::Malformed;

/// Assemble a ClearCodec rectangle: glyph header, then the composition sections.
fn rect(flags: u8, seq: u8, glyph: Option<u16>, residual: &[u8], bands: &[u8], sub: &[u8]) -> Vec<u8> {
    let mut v = vec![flags, seq];
    if let Some(g) = glyph {
        v.extend_from_slice(&g.to_le_bytes());
    }
    v.extend_from_slice(&(residual.len() as u32).to_le_bytes());
    v.extend_from_slice(&(bands.len() as u32).to_le_bytes());
    v.extend_from_slice(&(sub.len() as u32).to_le_bytes());
    v.extend_from_slice(residual);
    v.extend_from_slice(bands);
    v.extend_from_slice(sub);
    v
}

/// A surface of `w`×`h` pixels all `fill`, `RGBX32`.
fn surface(w: usize, h: usize, fill: [u8; 4]) -> Vec<u8> {
    fill.repeat(w * h)
}

/// The pixel at `(x, y)` of a `w`-wide surface.
fn at(pixels: &[u8], w: usize, x: usize, y: usize) -> [u8; 4] {
    let i = (y * w + x) * 4;
    [pixels[i], pixels[i + 1], pixels[i + 2], pixels[i + 3]]
}

/// One raw `BGR24` sub-rectangle of the subcodec layer.
fn raw(x: u16, y: u16, w: u16, h: u16, bgr: &[u8]) -> Vec<u8> {
    let mut sub = Vec::new();
    for v in [x, y, w, h] {
        sub.extend_from_slice(&v.to_le_bytes());
    }
    sub.extend_from_slice(&(bgr.len() as u32).to_le_bytes());
    sub.push(0); // raw
    sub.extend_from_slice(bgr);
    sub
}

const GREY: [u8; 4] = [7, 7, 7, 0];

/// The residual layer fills the whole rectangle by runs, where the rectangle is
/// on the surface, and nowhere else.
#[test]
fn a_residual_run_fills_the_rectangle_where_it_is() {
    let mut clear = Clear::new();
    let mut pixels = surface(4, 3, GREY);
    // One run of four pixels: B=30, G=20, R=10.
    let src = rect(0, 0, None, &[30, 20, 10, 4], &[], &[]);
    clear.decompress(&src, &mut Canvas::new(&mut pixels, 4, 3), 1, 1, 2, 2).unwrap();
    for y in 0..3 {
        for x in 0..4 {
            let inside = (1..3).contains(&x) && (1..3).contains(&y);
            assert_eq!(at(&pixels, 4, x, y), if inside { [10, 20, 30, 0] } else { GREY }, "{x},{y}");
        }
    }
}

/// A pixel no layer paints is the surface's: the host encodes against the picture
/// it knows is there, so painting it any other colour is painting the wrong one.
#[test]
fn a_pixel_no_layer_paints_keeps_the_surface() {
    let mut clear = Clear::new();
    let mut pixels = surface(2, 1, GREY);
    let src = rect(0, 0, None, &[], &[], &raw(1, 0, 1, 1, &[3, 2, 1]));
    clear.decompress(&src, &mut Canvas::new(&mut pixels, 2, 1), 0, 0, 2, 1).unwrap();
    assert_eq!(pixels, [GREY, [1, 2, 3, 0]].concat());
}

/// The RLEX subcodec paints a run and then a colour suite off its palette.
#[test]
fn an_rlex_suite_walks_its_palette() {
    let mut clear = Clear::new();
    let mut pixels = surface(2, 1, GREY);
    // Palette of two: colour 0 = B3 G2 R1, colour 1 = B6 G5 R4. numBits = 1.
    // tmp = 0x03: stopIndex 1, suiteDepth 1, startIndex 0; run 0, then a suite of
    // two — palette[0] then palette[1].
    let rlex = [2u8, 3, 2, 1, 6, 5, 4, 0x03, 0];
    let mut sub = Vec::new();
    for v in [0u16, 0, 2, 1] {
        sub.extend_from_slice(&v.to_le_bytes());
    }
    sub.extend_from_slice(&(rlex.len() as u32).to_le_bytes());
    sub.push(2); // RLEX
    sub.extend_from_slice(&rlex);
    let src = rect(0, 0, None, &[], &[], &sub);
    clear.decompress(&src, &mut Canvas::new(&mut pixels, 2, 1), 0, 0, 2, 1).unwrap();
    assert_eq!(pixels, vec![1, 2, 3, 0, 4, 5, 6, 0]);
}

/// A glyph is the rectangle as the surface showed it once the layers were done —
/// the pixels no layer painted included — and a hit stamps exactly that back
/// down, wherever the hit is.
#[test]
fn a_glyph_is_what_the_surface_showed_and_a_hit_stamps_it() {
    let mut clear = Clear::new();
    let mut pixels = surface(4, 1, GREY);
    let store = rect(FLAG_GLYPH_INDEX, 0, Some(5), &[], &[], &raw(1, 0, 1, 1, &[3, 2, 1]));
    clear.decompress(&store, &mut Canvas::new(&mut pixels, 4, 1), 0, 0, 2, 1).unwrap();

    // Somewhere else, on a different background. A hit carries only the glyph
    // header; the composition sections are absent.
    pixels[8..].copy_from_slice(&[9, 9, 9, 0, 9, 9, 9, 0]);
    let mut hit = vec![FLAG_GLYPH_HIT | FLAG_GLYPH_INDEX, 1];
    hit.extend_from_slice(&5u16.to_le_bytes());
    clear.decompress(&hit, &mut Canvas::new(&mut pixels, 4, 1), 2, 0, 2, 1).unwrap();
    assert_eq!(pixels, [GREY, [1, 2, 3, 0], GREY, [1, 2, 3, 0]].concat());
}

/// A banded short vertical bar, cache miss, paints its own pixels down a column.
#[test]
fn a_short_vbar_band_paints_a_column() {
    let mut clear = Clear::new();
    let mut pixels = surface(1, 2, GREY);
    let mut band = Vec::new();
    for v in [0u16, 0, 0, 1] {
        band.extend_from_slice(&v.to_le_bytes()); // x 0..=0, y 0..=1
    }
    band.extend_from_slice(&[0, 0, 0]); // background B, G, R
    band.extend_from_slice(&0x0200u16.to_le_bytes()); // yOn 0, yOff 2 -> short miss
    band.extend_from_slice(&[3, 2, 1]); // pixel 0: B3 G2 R1
    band.extend_from_slice(&[6, 5, 4]); // pixel 1: B6 G5 R4
    let src = rect(0, 0, None, &[], &band, &[]);
    let mut canvas = Canvas::new(&mut pixels, 1, 2);
    clear.decompress(&src, &mut canvas, 0, 0, 1, 2).unwrap();
    assert_eq!(canvas.painted(), Some((0, 0, 1, 2)));
    assert_eq!(pixels, vec![1, 2, 3, 0, 4, 5, 6, 0]);
}

/// One band of `columns` short-bar columns, `rows` tall, starting at column
/// `x_start` and row `y_start` of its rectangle, every pixel `[b, g, r]`.
fn band(x_start: u16, columns: u16, y_start: u16, rows: u16, bgr: [u8; 3]) -> Vec<u8> {
    let mut band = Vec::new();
    for v in [x_start, x_start + columns - 1, y_start, y_start + rows - 1] {
        band.extend_from_slice(&v.to_le_bytes());
    }
    band.extend_from_slice(&[0, 0, 0]); // background
    for _ in 0..columns {
        band.extend_from_slice(&(rows << 8).to_le_bytes()); // yOn 0, yOff rows -> short miss
        for _ in 0..rows {
            band.extend_from_slice(&bgr);
        }
    }
    band
}

/// A band placed past its rectangle lands on the surface beside it — its first `width` columns, each at most `height` rows —
/// and says where, because a pixel painted and never reported is a pixel a
/// client never receives.
#[test]
fn a_band_past_the_rectangle_lands_on_the_surface_and_says_where() {
    let mut clear = Clear::new();
    let mut pixels = surface(4, 4, GREY);
    // A 2×2 rectangle at (1, 1). Three columns from its column 1, four rows from
    // its row 1: the third column is past `width`, and rows past `height` are cut.
    let src = rect(0, 0, None, &[], &band(1, 3, 1, 4, [3, 2, 1]), &[]);
    let mut canvas = Canvas::new(&mut pixels, 4, 4);
    clear.decompress(&src, &mut canvas, 1, 1, 2, 2).unwrap();
    assert_eq!(canvas.painted(), Some((2, 2, 2, 2)));
    for y in 0..4 {
        for x in 0..4 {
            let painted = (2..4).contains(&x) && (2..4).contains(&y);
            assert_eq!(at(&pixels, 4, x, y), if painted { [1, 2, 3, 0] } else { GREY }, "{x},{y}");
        }
    }
}

/// A band column that would leave the surface refuses the rectangle, rather than writing past the surface's edge.
#[test]
fn a_band_column_past_the_surface_is_refused() {
    let mut clear = Clear::new();
    let mut pixels = surface(2, 2, GREY);
    let src = rect(0, 0, None, &[], &band(1, 2, 0, 1, [3, 2, 1]), &[]);
    let err = clear.decompress(&src, &mut Canvas::new(&mut pixels, 2, 2), 1, 0, 1, 1);
    // Column 0 of the band is at x 2, off a 2-wide surface.
    assert!(matches!(err, Err(Malformed::Refused { .. })), "{err:?}");
}

/// The NSCodec subcodec paints its sub-rectangle where the layer puts it; one
/// that cannot be read is refused, so the caller can leave the rectangle a hole
/// rather than end the session.
#[test]
fn the_nscodec_subcodec_paints_and_a_broken_one_is_refused() {
    // A 1×1 NSCodec bitmap: raw planes Y = 100, Co = 20, Cg = -10, alpha.
    let mut nsc = Vec::new();
    for plane in [1u32, 1, 1, 1] {
        nsc.extend_from_slice(&plane.to_le_bytes());
    }
    nsc.extend_from_slice(&[1, 0, 0, 0, 100, 20, 0xF6, 0xFF]);
    let subrect = |data: &[u8]| {
        let mut sub = Vec::new();
        for v in [1u16, 0, 1, 1] {
            sub.extend_from_slice(&v.to_le_bytes());
        }
        sub.extend_from_slice(&(data.len() as u32).to_le_bytes());
        sub.push(1); // NSCodec
        sub.extend_from_slice(data);
        sub
    };
    let mut clear = Clear::new();
    let mut pixels = surface(2, 1, GREY);
    let src = rect(0, 0, None, &[], &[], &subrect(&nsc));
    clear.decompress(&src, &mut Canvas::new(&mut pixels, 2, 1), 0, 0, 2, 1).unwrap();
    assert_eq!(pixels, [GREY, [130, 90, 90, 0]].concat());

    let src = rect(0, 1, None, &[], &[], &subrect(&[0]));
    let err = clear.decompress(&src, &mut Canvas::new(&mut pixels, 2, 1), 0, 0, 2, 1).unwrap_err();
    assert!(matches!(err, Malformed::Short { .. }), "{}", err.to_string());
}

/// What is reported as painted is the smallest part with every column drawn, those before a
/// fault too, and nothing where no column was drawn.
#[test]
fn the_columns_drawn_are_reported_and_no_more() {
    let mut clear = Clear::new();
    let mut pixels = surface(4, 4, GREY);
    let mut canvas = Canvas::new(&mut pixels, 4, 4);
    let plain = rect(0, 0, None, &[], &[], &raw(0, 0, 1, 1, &[3, 2, 1]));
    clear.decompress(&plain, &mut canvas, 1, 1, 2, 2).unwrap();
    assert_eq!(canvas.painted(), None);
    // Two bands at opposite corners, and a third that would leave the surface.
    let bands = [
        band(0, 1, 0, 1, [3, 2, 1]),
        band(2, 1, 2, 1, [3, 2, 1]),
        band(9, 1, 0, 1, [3, 2, 1]),
    ]
    .concat();
    let src = rect(0, 1, None, &[], &bands, &[]);
    assert!(clear.decompress(&src, &mut canvas, 1, 1, 2, 2).is_err());
    assert_eq!(canvas.painted(), Some((1, 1, 3, 3)));
}
