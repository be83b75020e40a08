use rdp_client::proto::gfx::Rect16;
use rdp_client::proto::progressive::{
    Paint, Progressive, LL3_AT, TILE_DIFFERENCE, WBT_CONTEXT, WBT_FRAME_BEGIN, WBT_FRAME_END, WBT_REGION,
    WBT_SYNC, WBT_TILE_FIRST, WBT_TILE_SIMPLE, WBT_TILE_UPGRADE,
};
use rdp_client::proto::rlgr::{rlgr1, KPMAX};
use rdp_client::proto::wavelet::COEFFS;
use rdp_client::proto::wire::Malformed;

/// Bits written most significant first, padded with zeros to a byte.
struct BitWriter {
    bytes: Vec<u8>,
    used: usize,
}

impl BitWriter {
    fn new() -> Self {
        Self { bytes: Vec::new(), used: 0 }
    }

    fn put(&mut self, value: u32, n: u32) {
        for i in (0..n).rev() {
            if self.used % 8 == 0 {
                self.bytes.push(0);
            }
            let bit = ((value >> i) & 1) as u8;
            let last = self.bytes.len() - 1;
            self.bytes[last] |= bit << (7 - (self.used % 8));
            self.used += 1;
        }
    }

    fn finish(self) -> Vec<u8> {
        self.bytes
    }
}

/// Golomb-Rice: `code` as `code >> kr` ones, a zero, then `kr` low bits; then the
/// decoder's `kr` update.
fn golomb(w: &mut BitWriter, code: u32, kr: &mut u32, krp: &mut u32) {
    let vk = code >> *kr;
    for _ in 0..vk {
        w.put(1, 1);
    }
    w.put(0, 1);
    w.put(code & ((1 << *kr) - 1), *kr);
    if vk == 0 {
        *krp = krp.saturating_sub(2);
    } else if vk != 1 {
        *krp = (*krp + vk).min(KPMAX);
    }
    *kr = *krp >> 3;
}

/// RLGR1 encoding, step for step what a decoder undoes; trailing zeros are
/// left to the decoder's zero fill.
fn rlgr1_encode(coeffs: &[i16]) -> Vec<u8> {
    let end = coeffs.iter().rposition(|&c| c != 0).map_or(0, |p| p + 1);
    let coeffs = &coeffs[..end];
    let mut w = BitWriter::new();
    let (mut k, mut kp, mut kr, mut krp) = (1u32, 8u32, 1u32, 8u32);
    let mut i = 0;
    while i < coeffs.len() {
        if k > 0 {
            let mut run = 0u32;
            while coeffs[i] == 0 {
                run += 1;
                i += 1;
            }
            while run >= (1 << k) {
                w.put(0, 1);
                run -= 1 << k;
                kp = (kp + 4).min(KPMAX);
                k = kp >> 3;
            }
            w.put(1, 1);
            w.put(run, k);
            let v = i32::from(coeffs[i]);
            i += 1;
            w.put(u32::from(v < 0), 1);
            golomb(&mut w, v.unsigned_abs() - 1, &mut kr, &mut krp);
            kp = kp.saturating_sub(6);
            k = kp >> 3;
        } else {
            let v = i32::from(coeffs[i]);
            i += 1;
            let code = if v < 0 { 2 * v.unsigned_abs() - 1 } else { 2 * v as u32 };
            golomb(&mut w, code, &mut kr, &mut krp);
            kp = if code == 0 { (kp + 3).min(KPMAX) } else { kp.saturating_sub(3) };
            k = kp >> 3;
        }
    }
    let mut bytes = w.finish();
    if bytes.is_empty() {
        bytes.push(0);
    }
    bytes
}

fn block(kind: u16, body: &[u8]) -> Vec<u8> {
    let mut v = kind.to_le_bytes().to_vec();
    v.extend_from_slice(&(body.len() as u32 + 6).to_le_bytes());
    v.extend_from_slice(body);
    v
}

/// The coefficients of a tile component whose every pixel is `dc` above the
/// middle: LL3's first value, differentially coded, with quantization 6.
fn flat_component(dc: i16) -> Vec<u8> {
    let mut coeffs = vec![0i16; COEFFS];
    coeffs[LL3_AT] = dc;
    rlgr1_encode(&coeffs)
}

/// A tile block of `kind` (simple or first) at `(x, y)`, flat at `dc` over grey.
fn flat_tile(kind: u16, x: u16, y: u16, dc: i16) -> Vec<u8> {
    let (y_data, c_data) = (flat_component(dc), flat_component(0));
    let mut b = vec![0u8, 0, 0];
    b.extend_from_slice(&x.to_le_bytes());
    b.extend_from_slice(&y.to_le_bytes());
    b.push(0); // flags
    if kind == WBT_TILE_FIRST {
        b.push(0); // quality: the region's first progressive quant
    }
    for len in [y_data.len(), c_data.len(), c_data.len(), 0] {
        b.extend_from_slice(&(len as u16).to_le_bytes());
    }
    b.extend_from_slice(&y_data);
    b.extend_from_slice(&c_data);
    b.extend_from_slice(&c_data);
    block(kind, &b)
}

/// An upgrade block at `(x, y)` with quality 0 and no data: nothing to add.
fn empty_upgrade(x: u16, y: u16) -> Vec<u8> {
    let mut b = vec![0u8, 0, 0];
    b.extend_from_slice(&x.to_le_bytes());
    b.extend_from_slice(&y.to_le_bytes());
    b.push(0); // quality
    b.extend_from_slice(&[0; 12]);
    block(WBT_TILE_UPGRADE, &b)
}

/// A region over `rects` (x, y, w, h) with one quantization table of all 6, one
/// progressive table of all 0, `flags`, and the given tile blocks.
fn region(rects: &[(u16, u16, u16, u16)], flags: u8, tiles: &[Vec<u8>]) -> Vec<u8> {
    let mut b = vec![64u8];
    b.extend_from_slice(&(rects.len() as u16).to_le_bytes());
    b.push(1); // numQuant
    b.push(1); // numProgQuant
    b.push(flags);
    b.extend_from_slice(&(tiles.len() as u16).to_le_bytes());
    let data: Vec<u8> = tiles.concat();
    b.extend_from_slice(&(data.len() as u32).to_le_bytes());
    for r in rects {
        for v in [r.0, r.1, r.2, r.3] {
            b.extend_from_slice(&v.to_le_bytes());
        }
    }
    b.extend_from_slice(&[0x66; 5]);
    b.extend_from_slice(&[0; 16]);
    b.extend_from_slice(&data);
    block(WBT_REGION, &b)
}

/// A whole PDU: sync, frame begin, context, the regions, frame end.
fn pdu(regions: &[Vec<u8>]) -> Vec<u8> {
    let mut v = block(WBT_SYNC, &[0xCA, 0xAC, 0xCC, 0xCA, 0x00, 0x01]);
    v.extend(block(WBT_FRAME_BEGIN, &[1, 0, 0, 0, regions.len() as u8, 0]));
    v.extend(block(WBT_CONTEXT, &[0, 64, 0, 1]));
    for r in regions {
        v.extend_from_slice(r);
    }
    v.extend(block(WBT_FRAME_END, &[]));
    v
}

/// The `BGRX` a flat tile at `dc` decodes to.
fn grey(dc: u8) -> [u8; 4] {
    [128 + dc, 128 + dc, 128 + dc, 0]
}

/// Every paint call, as (rect, the pixels inside it, packed).
fn collect(p: &mut Progressive, surface: u16, w: u32, h: u32, src: &[u8]) -> Result<Vec<(Rect16, Vec<u8>)>, Malformed> {
    let (paints, res) = p.decompress(surface, w, h, src, u64::MAX);
    res?;
    Ok(paints.into_iter().map(|Paint { rect, pixels }| (rect, pixels)).collect())
}

/// RLGR1 comes back as it went in: long zero runs, small and large magnitudes of
/// both signs, and a dense stretch that drives the coder into Golomb-Rice mode.
#[test]
fn rlgr1_round_trips_runs_and_dense_stretches() {
    let mut coeffs = vec![0i16; COEFFS];
    coeffs[0] = 7;
    coeffs[300] = -1;
    coeffs[301] = 3;
    coeffs[302] = -2;
    coeffs[303] = 5;
    coeffs[304] = -700;
    coeffs[305] = 1;
    coeffs[306] = 0;
    coeffs[307] = 0;
    coeffs[308] = 2;
    coeffs[2000] = 32767;
    coeffs[2001] = -32768;
    coeffs[4015] = 12;
    coeffs[4095] = -3;
    let encoded = rlgr1_encode(&coeffs);
    let decoded = rlgr1(&encoded, COEFFS).unwrap();
    assert_eq!(decoded, coeffs);
}

/// A component that encodes to nothing but its zero fill decodes to zeros.
#[test]
fn rlgr1_zero_fills_past_the_stream() {
    let decoded = rlgr1(&[0], 16).unwrap();
    assert_eq!(decoded, vec![0; 16]);
    assert!(rlgr1(&[], 16).is_err());
}

/// A tile whose only coefficient is LL3's first comes out one flat grey: the
/// differential decode, dequantization, every level of the inverse wavelet and the
/// colour conversion agree on a constant.
#[test]
fn a_flat_tile_decodes_to_one_grey() {
    let mut p = Progressive::new();
    let src = pdu(&[region(&[(0, 0, 64, 64)], 1, &[flat_tile(WBT_TILE_SIMPLE, 0, 0, 5)])]);
    let paints = collect(&mut p, 1, 64, 64, &src).unwrap();
    assert_eq!(paints.len(), 1);
    assert_eq!(paints[0].0, Rect16 { left: 0, top: 0, right: 64, bottom: 64 });
    assert_eq!(paints[0].1, grey(5).repeat(COEFFS));
}

/// A tile past the surface's edge is clipped to the surface, and to the region's
/// rectangle; the rows handed over start at the clipped corner.
#[test]
fn a_tile_is_clipped_to_the_surface_and_the_region() {
    let mut p = Progressive::new();
    let tiles = [flat_tile(WBT_TILE_FIRST, 1, 1, 9), flat_tile(WBT_TILE_FIRST, 0, 0, 1)];
    let src = pdu(&[region(&[(60, 66, 100, 100)], 1, &tiles)]);
    let paints = collect(&mut p, 1, 100, 70, &src).unwrap();
    assert_eq!(paints.len(), 1, "the (0,0) tile lies outside the region's rectangle");
    assert_eq!(paints[0].0, Rect16 { left: 64, top: 66, right: 100, bottom: 70 });
    assert_eq!(paints[0].1, grey(9).repeat(36 * 4));
}

/// An upgrade that adds no bits repaints the tile unchanged; one for a tile that
/// was never sent is refused.
#[test]
fn an_upgrade_needs_a_first_pass_and_may_add_nothing() {
    let mut p = Progressive::new();
    let src = pdu(&[region(&[(0, 0, 64, 64)], 1, &[empty_upgrade(0, 0)])]);
    let err = collect(&mut p, 1, 64, 64, &src).unwrap_err();
    assert!(matches!(err, Malformed::Refused { field: "an upgrade of a tile with no first pass", .. }), "{}", err.to_string());

    let first = pdu(&[region(&[(0, 0, 64, 64)], 1, &[flat_tile(WBT_TILE_FIRST, 0, 0, 5)])]);
    collect(&mut p, 1, 64, 64, &first).unwrap();
    let paints = collect(&mut p, 1, 64, 64, &src).unwrap();
    assert_eq!(paints.len(), 1);
    assert_eq!(paints[0].1, grey(5).repeat(COEFFS));
}

/// The classic wavelet is refused by name; the frame is not decoded wrong.
#[test]
fn a_region_without_reduce_extrapolate_is_refused() {
    let mut p = Progressive::new();
    let src = pdu(&[region(&[(0, 0, 64, 64)], 0, &[flat_tile(WBT_TILE_SIMPLE, 0, 0, 5)])]);
    let err = collect(&mut p, 1, 64, 64, &src).unwrap_err();
    assert!(matches!(err, Malformed::Refused { field: "a region without the reduce-extrapolate flag", .. }), "{}", err.to_string());
}

/// A region refused after some of its tiles decoded leaves those tiles free to be
/// drawn again: the next region that touches them paints them.
#[test]
fn tiles_of_a_refused_region_are_painted_by_the_next() {
    let mut p = Progressive::new();
    let tiles = [flat_tile(WBT_TILE_FIRST, 0, 0, 5), vec![0xC9, 0xCC, 6, 0, 0, 0]]; // then a block of no known kind
    let src = pdu(&[region(&[(0, 0, 64, 64)], 1, &tiles)]);
    let err = collect(&mut p, 1, 64, 64, &src).unwrap_err();
    assert!(matches!(err, Malformed::Refused { field: "a tile block type", .. }), "{}", err.to_string());

    let again = pdu(&[region(&[(0, 0, 64, 64)], 1, &[flat_tile(WBT_TILE_SIMPLE, 0, 0, 7)])]);
    let paints = collect(&mut p, 1, 64, 64, &again).unwrap();
    assert_eq!(paints.len(), 1);
    assert_eq!(paints[0].1, grey(7).repeat(COEFFS));
}

/// A tile difference adds to the coefficients held from the pass before.
#[test]
fn a_difference_tile_adds_to_the_last_pass() {
    let mut p = Progressive::new();
    let first = pdu(&[region(&[(0, 0, 64, 64)], 1, &[flat_tile(WBT_TILE_FIRST, 0, 0, 5)])]);
    collect(&mut p, 1, 64, 64, &first).unwrap();
    let mut diff = flat_tile(WBT_TILE_FIRST, 0, 0, 3);
    diff[6 + 7] |= TILE_DIFFERENCE; // flags, after the 6-byte block header and 7 header bytes
    let second = pdu(&[region(&[(0, 0, 64, 64)], 1, &[diff])]);
    let paints = collect(&mut p, 1, 64, 64, &second).unwrap();
    assert_eq!(paints[0].1, grey(8).repeat(COEFFS));
}

/// Each surface has tiles of its own: what one draws, forgets or is refused leaves
/// another's tiles as they were.
#[test]
fn the_tiles_of_one_surface_are_not_anothers() {
    let mut p = Progressive::new();
    let first = pdu(&[region(&[(0, 0, 64, 64)], 1, &[flat_tile(WBT_TILE_FIRST, 0, 0, 5)])]);
    let other = pdu(&[region(&[(0, 0, 64, 64)], 1, &[flat_tile(WBT_TILE_FIRST, 0, 0, 9)])]);
    let again = pdu(&[region(&[(0, 0, 64, 64)], 1, &[empty_upgrade(0, 0)])]);
    collect(&mut p, 1, 64, 64, &first).unwrap();
    collect(&mut p, 2, 64, 64, &other).unwrap();
    assert_eq!(collect(&mut p, 1, 64, 64, &again).unwrap()[0].1, grey(5).repeat(COEFFS));
    p.forget(2);
    assert!(collect(&mut p, 2, 64, 64, &again).is_err());
    assert_eq!(collect(&mut p, 1, 64, 64, &again).unwrap()[0].1, grey(5).repeat(COEFFS));
}

/// A tile past the budget is refused before it is held.
#[test]
fn tiles_past_the_budget_are_refused() {
    let mut p = Progressive::new();
    let first = pdu(&[region(&[(0, 0, 64, 64)], 1, &[flat_tile(WBT_TILE_FIRST, 0, 0, 5)])]);
    let (paints, res) = p.decompress(1, 64, 64, &first, 0);
    assert!(res.is_err());
    assert!(paints.is_empty());
    assert_eq!(p.held_except(2), 0);
    collect(&mut p, 1, 64, 64, &first).unwrap();
    assert_eq!((p.held_except(2), p.held_except(1)), (65_536, 0));
}
