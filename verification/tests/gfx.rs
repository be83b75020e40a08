use rdp_client::framebuffer::{Framebuffer, Rect};
use rdp_client::gfx::{Graphics, Update};
use rdp_client::proto::gfx::{
    pdu, CMD_CACHE_TO_SURFACE, CMD_CAPS_CONFIRM, CMD_CREATE_SURFACE, CMD_END_FRAME,
    CMD_MAP_SURFACE_TO_OUTPUT, CMD_RESET_GRAPHICS, CMD_SOLID_FILL, CMD_START_FRAME,
    CMD_SURFACE_TO_CACHE, CMD_SURFACE_TO_SURFACE, CMD_WIRE_TO_SURFACE_1, CMD_WIRE_TO_SURFACE_2,
    CODEC_CAPROGRESSIVE, CODEC_PLANAR, CODEC_UNCOMPRESSED, PIXEL_XRGB_8888,
};
use rdp_client::proto::progressive::{
    LL3_AT, WBT_CONTEXT, WBT_FRAME_BEGIN, WBT_FRAME_END, WBT_REGION, WBT_SYNC, WBT_TILE_FIRST,
    WBT_TILE_UPGRADE,
};
use rdp_client::proto::rlgr::KPMAX;
use rdp_client::proto::wavelet::COEFFS;
use rdp_client::proto::wire::Writer;

/// Bits written most significant first, padded with zeros to a byte.
struct BitWriter {
    bytes: Vec<u8>,
    used: usize,
}

impl BitWriter {
    fn new() -> Self {
        Self { bytes: Vec::new(), used: 0 }
    }

    fn put(&mut self, value: u32, n: u32) {
        for i in (0..n).rev() {
            if self.used % 8 == 0 {
                self.bytes.push(0);
            }
            let bit = ((value >> i) & 1) as u8;
            let last = self.bytes.len() - 1;
            self.bytes[last] |= bit << (7 - (self.used % 8));
            self.used += 1;
        }
    }

    fn finish(self) -> Vec<u8> {
        self.bytes
    }
}

/// Golomb-Rice: `code` as `code >> kr` ones, a zero, then `kr` low bits; then the
/// decoder's `kr` update.
fn golomb(w: &mut BitWriter, code: u32, kr: &mut u32, krp: &mut u32) {
    let vk = code >> *kr;
    for _ in 0..vk {
        w.put(1, 1);
    }
    w.put(0, 1);
    w.put(code & ((1 << *kr) - 1), *kr);
    if vk == 0 {
        *krp = krp.saturating_sub(2);
    } else if vk != 1 {
        *krp = (*krp + vk).min(KPMAX);
    }
    *kr = *krp >> 3;
}

/// RLGR1 encoding, step for step what a decoder undoes; trailing zeros are
/// left to the decoder's zero fill.
fn rlgr1_encode(coeffs: &[i16]) -> Vec<u8> {
    let end = coeffs.iter().rposition(|&c| c != 0).map_or(0, |p| p + 1);
    let coeffs = &coeffs[..end];
    let mut w = BitWriter::new();
    let (mut k, mut kp, mut kr, mut krp) = (1u32, 8u32, 1u32, 8u32);
    let mut i = 0;
    while i < coeffs.len() {
        if k > 0 {
            let mut run = 0u32;
            while coeffs[i] == 0 {
                run += 1;
                i += 1;
            }
            while run >= (1 << k) {
                w.put(0, 1);
                run -= 1 << k;
                kp = (kp + 4).min(KPMAX);
                k = kp >> 3;
            }
            w.put(1, 1);
            w.put(run, k);
            let v = i32::from(coeffs[i]);
            i += 1;
            w.put(u32::from(v < 0), 1);
            golomb(&mut w, v.unsigned_abs() - 1, &mut kr, &mut krp);
            kp = kp.saturating_sub(6);
            k = kp >> 3;
        } else {
            let v = i32::from(coeffs[i]);
            i += 1;
            let code = if v < 0 { 2 * v.unsigned_abs() - 1 } else { 2 * v as u32 };
            golomb(&mut w, code, &mut kr, &mut krp);
            kp = if code == 0 { (kp + 3).min(KPMAX) } else { kp.saturating_sub(3) };
            k = kp >> 3;
        }
    }
    let mut bytes = w.finish();
    if bytes.is_empty() {
        bytes.push(0);
    }
    bytes
}

fn block(kind: u16, body: &[u8]) -> Vec<u8> {
    let mut v = kind.to_le_bytes().to_vec();
    v.extend_from_slice(&(body.len() as u32 + 6).to_le_bytes());
    v.extend_from_slice(body);
    v
}

/// The coefficients of a tile component whose every pixel is `dc` above the
/// middle: LL3's first value, differentially coded, with quantization 6.
fn flat_component(dc: i16) -> Vec<u8> {
    let mut coeffs = vec![0i16; COEFFS];
    coeffs[LL3_AT] = dc;
    rlgr1_encode(&coeffs)
}

/// A tile block of `kind` (simple or first) at `(x, y)`, flat at `dc` over grey.
fn flat_tile(kind: u16, x: u16, y: u16, dc: i16) -> Vec<u8> {
    let (y_data, c_data) = (flat_component(dc), flat_component(0));
    let mut b = vec![0u8, 0, 0];
    b.extend_from_slice(&x.to_le_bytes());
    b.extend_from_slice(&y.to_le_bytes());
    b.push(0); // flags
    if kind == WBT_TILE_FIRST {
        b.push(0); // quality: the region's first progressive quant
    }
    for len in [y_data.len(), c_data.len(), c_data.len(), 0] {
        b.extend_from_slice(&(len as u16).to_le_bytes());
    }
    b.extend_from_slice(&y_data);
    b.extend_from_slice(&c_data);
    b.extend_from_slice(&c_data);
    block(kind, &b)
}

/// An upgrade block at `(x, y)` with quality 0 and no data: nothing to add.
fn empty_upgrade(x: u16, y: u16) -> Vec<u8> {
    let mut b = vec![0u8, 0, 0];
    b.extend_from_slice(&x.to_le_bytes());
    b.extend_from_slice(&y.to_le_bytes());
    b.push(0); // quality
    b.extend_from_slice(&[0; 12]);
    block(WBT_TILE_UPGRADE, &b)
}

/// A region over `rects` (x, y, w, h) with one quantization table of all 6, one
/// progressive table of all 0, `flags`, and the given tile blocks.
fn region(rects: &[(u16, u16, u16, u16)], flags: u8, tiles: &[Vec<u8>]) -> Vec<u8> {
    let mut b = vec![64u8];
    b.extend_from_slice(&(rects.len() as u16).to_le_bytes());
    b.push(1); // numQuant
    b.push(1); // numProgQuant
    b.push(flags);
    b.extend_from_slice(&(tiles.len() as u16).to_le_bytes());
    let data: Vec<u8> = tiles.concat();
    b.extend_from_slice(&(data.len() as u32).to_le_bytes());
    for r in rects {
        for v in [r.0, r.1, r.2, r.3] {
            b.extend_from_slice(&v.to_le_bytes());
        }
    }
    b.extend_from_slice(&[0x66; 5]);
    b.extend_from_slice(&[0; 16]);
    b.extend_from_slice(&data);
    block(WBT_REGION, &b)
}

/// A whole PDU: sync, frame begin, context, the regions, frame end.
fn progressive(regions: &[Vec<u8>]) -> Vec<u8> {
    let mut v = block(WBT_SYNC, &[0xCA, 0xAC, 0xCC, 0xCA, 0x00, 0x01]);
    v.extend(block(WBT_FRAME_BEGIN, &[1, 0, 0, 0, regions.len() as u8, 0]));
    v.extend(block(WBT_CONTEXT, &[0, 64, 0, 1]));
    for r in regions {
        v.extend_from_slice(r);
    }
    v.extend(block(WBT_FRAME_END, &[]));
    v
}

/// The `BGRX` a flat tile at `dc` decodes to.
fn grey(dc: u8) -> [u8; 4] {
    [128 + dc, 128 + dc, 128 + dc, 0]
}

fn reset(width: u32, height: u32) -> Vec<u8> {
    let mut w = Writer::new();
    w.u32_le(width);
    w.u32_le(height);
    w.u32_le(0);
    w.zeros(340 - 8 - 12);
    pdu(CMD_RESET_GRAPHICS, &w.finish())
}

fn create(surface: u16, width: u16, height: u16) -> Vec<u8> {
    let mut w = Writer::new();
    w.u16_le(surface);
    w.u16_le(width);
    w.u16_le(height);
    w.u8(PIXEL_XRGB_8888);
    pdu(CMD_CREATE_SURFACE, &w.finish())
}

fn map(surface: u16, x: u32, y: u32) -> Vec<u8> {
    let mut w = Writer::new();
    w.u16_le(surface);
    w.u16_le(0);
    w.u32_le(x);
    w.u32_le(y);
    pdu(CMD_MAP_SURFACE_TO_OUTPUT, &w.finish())
}

fn start(frame: u32) -> Vec<u8> {
    let mut w = Writer::new();
    w.u32_le(0);
    w.u32_le(frame);
    pdu(CMD_START_FRAME, &w.finish())
}

fn end(frame: u32) -> Vec<u8> {
    pdu(CMD_END_FRAME, &frame.to_le_bytes())
}

fn wire(surface: u16, codec: u16, rect: (u16, u16, u16, u16), data: &[u8]) -> Vec<u8> {
    let mut w = Writer::new();
    w.u16_le(surface);
    w.u16_le(codec);
    w.u8(PIXEL_XRGB_8888);
    w.u16_le(rect.0);
    w.u16_le(rect.1);
    w.u16_le(rect.2);
    w.u16_le(rect.3);
    w.u32_le(u32::try_from(data.len()).unwrap());
    w.bytes(data);
    pdu(CMD_WIRE_TO_SURFACE_1, &w.finish())
}

fn wire2(surface: u16, codec: u16, data: &[u8]) -> Vec<u8> {
    let mut w = Writer::new();
    w.u16_le(surface);
    w.u16_le(codec);
    w.u32_le(0); // codecContextId
    w.u8(PIXEL_XRGB_8888);
    w.u32_le(u32::try_from(data.len()).unwrap());
    w.bytes(data);
    pdu(CMD_WIRE_TO_SURFACE_2, &w.finish())
}

fn solidfill(surface: u16, bgra: [u8; 4], rects: &[(u16, u16, u16, u16)]) -> Vec<u8> {
    let mut w = Writer::new();
    w.u16_le(surface);
    w.bytes(&bgra);
    w.u16_le(u16::try_from(rects.len()).unwrap());
    for r in rects {
        w.u16_le(r.0);
        w.u16_le(r.1);
        w.u16_le(r.2);
        w.u16_le(r.3);
    }
    pdu(CMD_SOLID_FILL, &w.finish())
}

fn s2s(src: u16, dst: u16, rect: (u16, u16, u16, u16), points: &[(u16, u16)]) -> Vec<u8> {
    let mut w = Writer::new();
    w.u16_le(src);
    w.u16_le(dst);
    w.u16_le(rect.0);
    w.u16_le(rect.1);
    w.u16_le(rect.2);
    w.u16_le(rect.3);
    w.u16_le(u16::try_from(points.len()).unwrap());
    for p in points {
        w.u16_le(p.0);
        w.u16_le(p.1);
    }
    pdu(CMD_SURFACE_TO_SURFACE, &w.finish())
}

fn s2c(surface: u16, slot: u16, rect: (u16, u16, u16, u16)) -> Vec<u8> {
    let mut w = Writer::new();
    w.u16_le(surface);
    w.u32_le(0); // cacheKey low
    w.u32_le(0); // cacheKey high
    w.u16_le(slot);
    w.u16_le(rect.0);
    w.u16_le(rect.1);
    w.u16_le(rect.2);
    w.u16_le(rect.3);
    pdu(CMD_SURFACE_TO_CACHE, &w.finish())
}

fn c2s(slot: u16, surface: u16, points: &[(u16, u16)]) -> Vec<u8> {
    let mut w = Writer::new();
    w.u16_le(slot);
    w.u16_le(surface);
    w.u16_le(u16::try_from(points.len()).unwrap());
    for p in points {
        w.u16_le(p.0);
        w.u16_le(p.1);
    }
    pdu(CMD_CACHE_TO_SURFACE, &w.finish())
}

/// Several PDUs in one channel PDU.
fn packet(pdus: &[Vec<u8>]) -> Vec<u8> {
    pdus.concat()
}

fn receive(graphics: &mut Graphics, framebuffer: &mut Framebuffer, pdus: &[Vec<u8>]) -> Vec<Update> {
    graphics.receive(&packet(pdus), framebuffer).expect("well-formed PDUs")
}

/// The whole shape of a first frame: a reset sizes the output, a surface is
/// created and mapped, one rectangle is drawn, and the EndFrame is when it
/// reaches the framebuffer — swizzled to the framebuffer's order.
#[test]
fn a_frame_reaches_the_framebuffer_at_its_end_and_not_before() {
    let mut framebuffer = Framebuffer::new();
    let mut graphics = Graphics::new();
    let updates = receive(&mut graphics, &mut framebuffer, &[reset(4, 4), create(1, 4, 4), map(1, 0, 0)]);
    assert_eq!(updates, vec![Update::Reset { width: 4, height: 4 }]);
    framebuffer.with(|frame| assert_eq!((frame.width, frame.height), (4, 4)));

    // Two BGRX pixels at (1, 2) and (2, 2).
    let pixels = [10, 20, 30, 0xFF, 11, 21, 31, 0xFF];
    let updates = receive(&mut graphics, &mut framebuffer, &[start(1), wire(1, CODEC_UNCOMPRESSED, (1, 2, 3, 3), &pixels)]);
    assert!(updates.is_empty(), "nothing shows before the EndFrame: {updates:?}");
    framebuffer.with(|frame| assert!(frame.pixels.iter().all(|b| *b == 0)));

    let updates = receive(&mut graphics, &mut framebuffer, &[end(1)]);
    let painted = Rect { x: 1, y: 2, width: 2, height: 1 };
    assert_eq!(updates, vec![Update::Paint(painted), Update::Frame { id: 1, decoded: 1 }]);
    framebuffer.with(|frame| {
        let row = frame.rows(painted);
        assert_eq!(row, vec![&[30, 20, 10, 0, 31, 21, 11, 0][..]]);
    });
}

/// A surface mapped away from the origin lands where it was mapped, and the
/// part of it past the output's edge is clipped rather than dropped.
#[test]
fn a_mapped_surface_is_placed_at_its_origin_and_clipped_to_the_output() {
    let mut framebuffer = Framebuffer::new();
    let mut graphics = Graphics::new();
    receive(&mut graphics, &mut framebuffer, &[reset(4, 2), create(7, 2, 2), map(7, 3, 1)]);
    // A 2x2 planar rectangle, three flat planes: red 1, green 2, blue 3.
    let planar = [0x20, 1, 1, 1, 1, 2, 2, 2, 2, 3, 3, 3, 3, 0];
    let updates = receive(&mut graphics, &mut framebuffer, &[start(5), wire(7, CODEC_PLANAR, (0, 0, 2, 2), &planar), end(5)]);
    // Only the one pixel of it inside a 4x2 output at (3, 1).
    assert_eq!(updates, vec![
        Update::Paint(Rect { x: 3, y: 1, width: 1, height: 1 }),
        Update::Frame { id: 5, decoded: 1 },
    ]);
    framebuffer.with(|frame| {
        assert_eq!(&frame.pixels[(4 + 3) * 4..], &[1, 2, 3, 0]);
        assert!(frame.pixels[..(4 + 3) * 4].iter().all(|b| *b == 0));
    });
}

/// The measurement: a codec with no decoder is counted, its rectangle left as it
/// was, and the frame still ends and is acknowledged.
#[test]
fn a_codec_with_no_decoder_leaves_the_rectangle_alone_and_the_frame_still_ends() {
    let mut framebuffer = Framebuffer::new();
    let mut graphics = Graphics::new();
    receive(&mut graphics, &mut framebuffer, &[reset(4, 4), create(1, 4, 4), map(1, 0, 0)]);
    let updates = receive(&mut graphics, &mut framebuffer, &[
        start(2),
        wire(1, CODEC_CAPROGRESSIVE, (0, 0, 4, 4), &[0xAA; 16]),
        wire(1, CODEC_CAPROGRESSIVE, (0, 0, 2, 2), &[0xAA; 4]),
        end(2),
    ]);
    assert_eq!(updates, vec![Update::Frame { id: 2, decoded: 1 }]);
    assert_eq!(graphics.tally.codecs.get(CODEC_CAPROGRESSIVE), Some(&2));
    assert_eq!(graphics.tally.commands.get(CMD_WIRE_TO_SURFACE_1), Some(&2));
    assert!(graphics.tally.summary().contains("Progressive 2"), "{}", graphics.tally.summary());
}

/// A rectangle whose payload does not decode is a hole, not the end: the
/// session goes on and the frame is still acknowledged.
#[test]
fn a_payload_that_does_not_decode_costs_the_rectangle_and_not_the_session() {
    let mut framebuffer = Framebuffer::new();
    let mut graphics = Graphics::new();
    receive(&mut graphics, &mut framebuffer, &[reset(4, 4), create(1, 4, 4), map(1, 0, 0)]);
    let updates = receive(&mut graphics, &mut framebuffer, &[
        start(3),
        wire(1, CODEC_UNCOMPRESSED, (0, 0, 2, 2), &[0; 8]), // half the pixels
        wire(1, CODEC_PLANAR, (0, 0, 2, 2), &[0x21, 0]),    // a colour loss level
        wire(2, CODEC_UNCOMPRESSED, (0, 0, 1, 1), &[0; 4]), // no such surface
        wire(1, CODEC_UNCOMPRESSED, (3, 3, 5, 5), &[0; 16]), // past the surface
        end(3),
    ]);
    assert_eq!(updates, vec![Update::Frame { id: 3, decoded: 1 }]);
}

/// A PDU that does not decode is another matter: the buffer after it is at an
/// offset nothing vouches for, so it ends the session.
#[test]
fn a_malformed_pdu_ends_the_session() {
    let mut framebuffer = Framebuffer::new();
    let mut graphics = Graphics::new();
    let mut truncated = create(1, 4, 4);
    truncated.pop();
    assert!(graphics.receive(&truncated, &mut framebuffer).is_err());
    assert!(graphics.receive(&[0xE2], &mut framebuffer).is_err(), "and so does a cut header");
}

/// A reset in the middle of a session resizes the framebuffer at once — before
/// the paints that follow it in the same PDU — and blanks the surfaces.
#[test]
fn a_reset_resizes_before_the_paints_that_follow_it() {
    let mut framebuffer = Framebuffer::new();
    let mut graphics = Graphics::new();
    receive(&mut graphics, &mut framebuffer, &[reset(2, 2), create(1, 2, 2), map(1, 0, 0)]);
    receive(&mut graphics, &mut framebuffer, &[start(1), wire(1, CODEC_UNCOMPRESSED, (0, 0, 2, 2), &[9; 16]), end(1)]);
    framebuffer.with(|frame| assert!(frame.pixels.iter().all(|b| *b == 9 || *b == 0)));

    let updates = receive(&mut graphics, &mut framebuffer, &[
        reset(4, 4),
        create(1, 4, 4),
        map(1, 0, 0),
        start(2),
        wire(1, CODEC_UNCOMPRESSED, (3, 3, 4, 4), &[5, 6, 7, 0]),
        end(2),
    ]);
    assert_eq!(updates, vec![
        Update::Reset { width: 4, height: 4 },
        Update::Paint(Rect { x: 3, y: 3, width: 1, height: 1 }),
        Update::Frame { id: 2, decoded: 2 },
    ]);
    framebuffer.with(|frame| {
        assert_eq!((frame.width, frame.height), (4, 4));
        assert_eq!(&frame.pixels[60..], &[7, 6, 5, 0]);
        assert!(frame.pixels[..60].iter().all(|b| *b == 0), "the old picture is gone");
    });
}

/// A Progressive PDU on the second wire-to-surface command paints its tiles into
/// the surface at the region's rectangles, and the framebuffer shows them at
/// EndFrame; the tiles are kept, so a later PDU on the same surface finds them.
#[test]
fn a_progressive_pdu_paints_its_region_and_keeps_its_tiles() {
    let mut framebuffer = Framebuffer::new();
    let mut graphics = Graphics::new();
    receive(&mut graphics, &mut framebuffer, &[reset(100, 70), create(1, 100, 70), map(1, 0, 0)]);
    let first = progressive(&[region(&[(60, 66, 100, 100)], 1, &[flat_tile(0xCCC6, 1, 1, 9)])]);
    let updates = receive(&mut graphics, &mut framebuffer, &[start(1), wire2(1, CODEC_CAPROGRESSIVE, &first), end(1)]);
    let painted = Rect { x: 64, y: 66, width: 36, height: 4 };
    assert_eq!(updates, vec![Update::Paint(painted), Update::Frame { id: 1, decoded: 1 }]);
    let expected = { let g = grey(9); [g[2], g[1], g[0], 0] };
    framebuffer.with(|frame| {
        for row in frame.rows(painted) {
            for px in row.chunks(4) {
                assert_eq!(px, &expected);
            }
        }
        // The pixel left of the region is untouched.
        assert_eq!(&frame.pixels[(66 * 100 + 63) * 4..(66 * 100 + 64) * 4], &[0, 0, 0, 0]);
    });
    // An upgrade with nothing to add finds the tile and repaints it, not a refusal.
    let again = progressive(&[region(&[(64, 64, 36, 6)], 1, &[empty_upgrade(1, 1)])]);
    let updates = receive(&mut graphics, &mut framebuffer, &[start(2), wire2(1, CODEC_CAPROGRESSIVE, &again), end(2)]);
    assert_eq!(updates, vec![Update::Paint(Rect { x: 64, y: 64, width: 36, height: 6 }), Update::Frame { id: 2, decoded: 2 }]);
}

/// A solid fill paints one colour, and a rectangle that pokes past the surface
/// is clipped to it rather than dropped.
#[test]
fn a_solid_fill_paints_one_colour_clipped_to_the_surface() {
    let mut framebuffer = Framebuffer::new();
    let mut graphics = Graphics::new();
    receive(&mut graphics, &mut framebuffer, &[reset(4, 4), create(1, 4, 4), map(1, 0, 0)]);
    // Fill R=10 G=20 B=30 (wire order B, G, R, A) over a rectangle past the edge.
    let updates = receive(&mut graphics, &mut framebuffer, &[
        start(1),
        solidfill(1, [30, 20, 10, 0xFF], &[(2, 2, 6, 6)]),
        end(1),
    ]);
    let painted = Rect { x: 2, y: 2, width: 2, height: 2 };
    assert_eq!(updates, vec![Update::Paint(painted), Update::Frame { id: 1, decoded: 1 }]);
    framebuffer.with(|frame| {
        for row in frame.rows(painted) {
            for px in row.chunks(4) {
                assert_eq!(px, &[10, 20, 30, 0]);
            }
        }
    });
}

/// A rectangle lifted into a cache slot and stamped back down lands where the
/// server points it, and survives the frame that cached it.
#[test]
fn a_rectangle_cached_and_stamped_back_lands_where_it_is_told() {
    let mut framebuffer = Framebuffer::new();
    let mut graphics = Graphics::new();
    receive(&mut graphics, &mut framebuffer, &[reset(4, 4), create(1, 4, 4), map(1, 0, 0)]);
    receive(&mut graphics, &mut framebuffer, &[
        start(1),
        wire(1, CODEC_UNCOMPRESSED, (0, 0, 1, 1), &[30, 20, 10, 0xFF]),
        s2c(1, 5, (0, 0, 1, 1)),
        c2s(5, 1, &[(3, 3)]),
        end(1),
    ]);
    framebuffer.with(|frame| {
        assert_eq!(&frame.pixels[..4], &[10, 20, 30, 0]);
        assert_eq!(&frame.pixels[(3 * 4 + 3) * 4..], &[10, 20, 30, 0]);
    });
}

/// A copy of a rectangle over itself — a scroll — reads its whole source before
/// it writes, so the overlap does not smear.
#[test]
fn a_scroll_copies_a_rectangle_over_itself_correctly() {
    let mut framebuffer = Framebuffer::new();
    let mut graphics = Graphics::new();
    receive(&mut graphics, &mut framebuffer, &[reset(2, 2), create(1, 2, 2), map(1, 0, 0)]);
    receive(&mut graphics, &mut framebuffer, &[
        start(1),
        // The top row is one colour; copy it down onto the bottom row.
        wire(1, CODEC_UNCOMPRESSED, (0, 0, 2, 1), &[30, 20, 10, 0xFF, 30, 20, 10, 0xFF]),
        s2s(1, 1, (0, 0, 2, 1), &[(0, 1)]),
        end(1),
    ]);
    framebuffer.with(|frame| {
        assert_eq!(&frame.pixels[..4], &[10, 20, 30, 0]);
        assert_eq!(&frame.pixels[8..12], &[10, 20, 30, 0]);
    });
}

/// A cache draw from an empty slot, a copy from a missing surface, and a stamp
/// that does not fit are each a dropped rectangle, not the end of the session.
#[test]
fn a_bad_copy_or_cache_costs_the_rectangle_and_not_the_session() {
    let mut framebuffer = Framebuffer::new();
    let mut graphics = Graphics::new();
    receive(&mut graphics, &mut framebuffer, &[reset(4, 4), create(1, 4, 4), map(1, 0, 0)]);
    let updates = receive(&mut graphics, &mut framebuffer, &[
        start(1),
        c2s(9, 1, &[(0, 0)]),           // empty slot
        s2s(2, 1, (0, 0, 2, 2), &[(0, 0)]), // no such source surface
        wire(1, CODEC_UNCOMPRESSED, (0, 0, 2, 2), &[0; 16]),
        s2c(1, 3, (0, 0, 2, 2)),
        c2s(3, 1, &[(3, 3)]),            // 2x2 at (3,3) does not fit a 4x4
        end(1),
    ]);
    assert_eq!(updates.last(), Some(&Update::Frame { id: 1, decoded: 1 }));
}

/// A surface larger than any desktop this client holds is refused before it is
/// allocated, and so is an output.
#[test]
fn an_absurd_surface_or_output_is_refused_before_it_is_allocated() {
    let mut framebuffer = Framebuffer::new();
    let mut graphics = Graphics::new();
    let err = graphics.receive(&packet(&[create(1, 32766, 32766)]), &mut framebuffer).unwrap_err();
    assert!(err.to_string().contains("32766x32766"), "{}", err.to_string());
    let err = graphics.receive(&packet(&[reset(32766, 32766)]), &mut framebuffer).unwrap_err();
    assert!(err.to_string().contains("32766x32766"), "{}", err.to_string());
}

/// Every surface a host creates draws on one budget: a second one that takes the
/// total past it is refused however small it is on its own, and a surface created
/// again under its own number replaces rather than adds.
#[test]
fn surfaces_share_one_budget() {
    let mut framebuffer = Framebuffer::new();
    let mut graphics = Graphics::new();
    // Exactly the budget, in one surface. Zeroed pages the kernel hands out
    // lazily, so this costs the test nothing but address space.
    receive(&mut graphics, &mut framebuffer, &[create(1, 16384, 8192)]);
    let err = graphics.receive(&packet(&[create(2, 1, 1)]), &mut framebuffer).unwrap_err();
    assert!(err.to_string().contains("512 MiB of surfaces"), "{}", err.to_string());
    receive(&mut graphics, &mut framebuffer, &[create(1, 16384, 8192)]);
    assert_eq!(graphics.surfaces.len(), 1);
}

/// The cache slots draw on one budget: an entry that would take them past it is
/// dropped, and the slot it was meant for is emptied rather than left stale; an
/// entry replacing a slot's own is not counted against it.
#[test]
fn cache_slots_share_one_budget() {
    let mut framebuffer = Framebuffer::new();
    let mut graphics = Graphics::new();
    // A 4096x4096 surface is exactly the cache budget when lifted whole.
    receive(&mut graphics, &mut framebuffer, &[reset(4, 4), create(1, 4096, 4096), map(1, 0, 0)]);
    receive(&mut graphics, &mut framebuffer, &[s2c(1, 1, (0, 0, 4096, 4096))]);
    assert_eq!(graphics.caches.len(), 1);
    receive(&mut graphics, &mut framebuffer, &[s2c(1, 2, (0, 0, 1, 1))]);
    assert!(!graphics.caches.contains_key(2), "the second entry was dropped");
    receive(&mut graphics, &mut framebuffer, &[s2c(1, 1, (0, 0, 4096, 4096))]);
    assert_eq!(graphics.caches.len(), 1, "the slot's own entry is replaced, not added to");
    // Now the slot holds a small one; the next big one has room.
    receive(&mut graphics, &mut framebuffer, &[s2c(1, 1, (0, 0, 1, 1)), s2c(1, 2, (0, 0, 4096, 4095))]);
    assert_eq!(graphics.caches.len(), 2);
}

/// A surface drawn into before it is mapped shows what was drawn at the EndFrame
/// after the map, rather than waiting for the host to draw it again.
#[test]
fn what_was_drawn_before_the_map_is_presented_after_it() {
    let mut framebuffer = Framebuffer::new();
    let mut graphics = Graphics::new();
    receive(&mut graphics, &mut framebuffer, &[reset(4, 4), create(1, 4, 4)]);
    let updates = receive(&mut graphics, &mut framebuffer, &[
        start(1),
        wire(1, CODEC_UNCOMPRESSED, (0, 0, 1, 1), &[30, 20, 10, 0xFF]),
        map(1, 0, 0),
        end(1),
    ]);
    assert_eq!(updates, vec![
        Update::Paint(Rect { x: 0, y: 0, width: 1, height: 1 }),
        Update::Frame { id: 1, decoded: 1 },
    ]);
}

/// The host's CapsConfirm is the moment the session learns that its frames will
/// be marked, and it is reported ahead of anything drawn.
#[test]
fn a_caps_confirm_is_reported_before_the_first_paint() {
    let mut framebuffer = Framebuffer::new();
    let mut graphics = Graphics::new();
    let mut w = Writer::new();
    w.u32_le(0x000A_0002); // version 10.2
    w.u32_le(4); // capsDataLength
    w.u32_le(0); // flags
    let confirm = pdu(CMD_CAPS_CONFIRM, &w.finish());
    let updates = receive(&mut graphics, &mut framebuffer, &[confirm, reset(4, 4)]);
    assert_eq!(updates, vec![Update::Confirmed, Update::Reset { width: 4, height: 4 }]);
}

/// A draw touches the surface it names and no other, and a surface deleted takes what it
/// held with it.
#[test]
fn a_draw_touches_the_surface_it_names() {
    let mut framebuffer = Framebuffer::new();
    let mut graphics = Graphics::new();
    receive(&mut graphics, &mut framebuffer, &[
        reset(4, 1),
        create(1, 2, 1),
        create(2, 2, 1),
        map(1, 0, 0),
        map(2, 2, 0),
        start(1),
        wire(2, CODEC_UNCOMPRESSED, (0, 0, 1, 1), &[30, 20, 10, 0xFF]),
        end(1),
    ]);
    framebuffer.with(|frame| assert_eq!(frame.pixels, [0, 0, 0, 0, 0, 0, 0, 0, 10, 20, 30, 0, 0, 0, 0, 0]));
    assert_eq!(graphics.surfaces.len(), 2);
}
