use openh264::encoder::{BitRate, Encoder, EncoderConfig, QpRange, RateControlMode};
use openh264::formats::YUVBuffer;
use openh264::OpenH264API;
use rdp_client::avc::{
    combine, crop, describe, picture_of, same_mask, show_chroma, unfilter, window_420, Area, Avc, AvcError, Decoded,
    Layout, Paint, Picture as Views, Planes,
};
use rdp_client::proto::avc::{Avc420, Avc444, Region};
use rdp_client::proto::gfx::Rect16;

/// One H.264 stream, encoding the pictures it is given in turn, the first as a
/// keyframe with its parameter sets inline.
struct Stream(Encoder);

impl Stream {
    fn new() -> Self {
        let config = EncoderConfig::new()
            .rate_control_mode(RateControlMode::Quality)
            .bitrate(BitRate::from_bps(50_000_000))
            .qp(QpRange::new(0, 4))
            .skip_frames(false);
        Self(Encoder::with_api_config(OpenH264API::from_source(), config).expect("an encoder"))
    }

    /// Encode one I420 picture, packed: Y then U then V.
    fn encode(&mut self, i420: Vec<u8>, width: usize, height: usize) -> Vec<u8> {
        let picture = YUVBuffer::from_vec(i420, width, height);
        self.0.encode(&picture).expect("an access unit").to_vec()
    }
}

/// A packed I420 picture of one colour.
fn flat(width: usize, height: usize, yuv: [u8; 3]) -> Vec<u8> {
    let mut out = vec![yuv[0]; width * height];
    out.resize(width * height + width * height / 4, yuv[1]);
    out.resize(width * height + width * height / 2, yuv[2]);
    out
}

/// The RGB a full-range BT.709 YUV sample is, by [MS-RDPEGFX] 3.3.8.3.1's own
/// integer form.
fn rgb_of(yuv: [u8; 3]) -> [u8; 3] {
    let (y, u, v) = (i32::from(yuv[0]) * 256, i32::from(yuv[1]) - 128, i32::from(yuv[2]) - 128);
    let clamp = |n: i32| (n >> 8).clamp(0, 255) as u8;
    [clamp(y + 403 * v), clamp(y - 48 * u - 120 * v), clamp(y + 475 * u)]
}

/// A YUV444 picture, and the two YUV420 views a host makes of it under either
/// layout — the forward side of [MS-RDPEGFX] 3.3.8.3.2 and 3.3.8.3.3, written
/// out so the combine is checked against something other than itself.
struct Picture {
    width: usize,
    height: usize,
    y: Vec<u8>,
    u: Vec<u8>,
    v: Vec<u8>,
}

impl Picture {
    fn sample(&self, plane: &[u8], x: usize, y: usize) -> u8 {
        plane[y * self.width + x]
    }

    /// The luma view: Y whole, U and V averaged over each 2x2.
    fn luma_view(&self) -> Planes {
        let (cw, ch) = (self.width / 2, self.height / 2);
        let average = |plane: &[u8], x: usize, y: usize| {
            let sum: u32 = [(0, 0), (1, 0), (0, 1), (1, 1)]
                .iter()
                .map(|(dx, dy)| u32::from(self.sample(plane, 2 * x + dx, 2 * y + dy)))
                .sum();
            (sum / 4) as u8
        };
        let mut u = vec![0; cw * ch];
        let mut v = vec![0; cw * ch];
        for y in 0..ch {
            for x in 0..cw {
                u[y * cw + x] = average(&self.u, x, y);
                v[y * cw + x] = average(&self.v, x, y);
            }
        }
        Planes { width: self.width, height: self.height, y: self.y.clone(), u, v }
    }

    /// The chroma view, under `layout`.
    fn chroma_view(&self, layout: Layout) -> Planes {
        let (w, h) = (self.width, self.height);
        let (cw, ch) = (w / 2, h / 2);
        let mut y = vec![0; w * h];
        let mut u = vec![0; cw * ch];
        let mut v = vec![0; cw * ch];
        match layout {
            Layout::V1 => {
                for my in (0..h).step_by(16) {
                    for mx in (0..w).step_by(16) {
                        for yy in 0..8 {
                            for xx in 0..16 {
                                y[(my + yy) * w + mx + xx] = self.sample(&self.u, mx + xx, my + 2 * yy + 1);
                                y[(my + 8 + yy) * w + mx + xx] = self.sample(&self.v, mx + xx, my + 2 * yy + 1);
                            }
                        }
                        for yy in 0..8 {
                            for xx in 0..8 {
                                u[(my / 2 + yy) * cw + mx / 2 + xx] = self.sample(&self.u, mx + 2 * xx + 1, my + 2 * yy);
                                v[(my / 2 + yy) * cw + mx / 2 + xx] = self.sample(&self.v, mx + 2 * xx + 1, my + 2 * yy);
                            }
                        }
                    }
                }
            }
            Layout::V2 => {
                for yy in 0..h {
                    for xx in 0..w / 2 {
                        y[yy * w + xx] = self.sample(&self.u, 2 * xx + 1, yy);
                        y[yy * w + w / 2 + xx] = self.sample(&self.v, 2 * xx + 1, yy);
                    }
                }
                for yy in 0..h / 2 {
                    for xx in 0..w / 4 {
                        u[yy * cw + xx] = self.sample(&self.u, 4 * xx, 2 * yy + 1);
                        u[yy * cw + w / 4 + xx] = self.sample(&self.v, 4 * xx, 2 * yy + 1);
                        v[yy * cw + xx] = self.sample(&self.u, 4 * xx + 2, 2 * yy + 1);
                        v[yy * cw + w / 4 + xx] = self.sample(&self.v, 4 * xx + 2, 2 * yy + 1);
                    }
                }
            }
        }
        Planes { width: w, height: h, y, u, v }
    }
}

/// A 32x32 picture whose chroma varies per pixel but whose every 2x2 averages
/// exactly, so the combine has to land on the picture sample for sample.
fn textured() -> Picture {
    let (width, height) = (32, 32);
    let mut u = vec![0; width * height];
    let mut v = vec![0; width * height];
    for y in 0..height {
        for x in 0..width {
            // Each 2x2: [a, a+4, a+8, a+12], summing to 4a + 24, so the average
            // is a + 6 exactly and the reverse filter lands on a.
            let a = ((x / 2 + y / 2 * 16) % 60 * 3) as u8 + 40;
            let corner = ((x & 1) + 2 * (y & 1)) as u8 * 4;
            u[y * width + x] = a + corner;
            v[y * width + x] = 255 - a - corner;
        }
    }
    let y = (0..width * height).map(|i| (i % 251) as u8).collect();
    Picture { width, height, y, u, v }
}

fn combined(picture: &Picture, layout: Layout, block: Area) -> (Vec<u8>, Vec<u8>) {
    let (luma, chroma) = (picture.luma_view(), picture.chroma_view(layout));
    combine(&Views::of_planes(&luma), &Views::of_planes(&chroma), layout, block)
}

/// Both layouts put every chroma sample back where the picture had it — the
/// carried ones by their tables, the averaged ones through the filter, whose
/// reverse is beyond the cutoff by construction here.
#[test]
fn the_two_views_combine_back_into_the_picture_under_either_layout() {
    let picture = textured();
    let block = Area { left: 0, top: 0, right: 32, bottom: 32 };
    for layout in [Layout::V1, Layout::V2] {
        let (u444, v444) = combined(&picture, layout, block);
        // The averaged corner's reverse differs from the average by 6, under the
        // cutoff, so the average itself is what is kept there.
        for y in 0..32 {
            for x in 0..32 {
                let (eu, ev) = (picture.u[y * 32 + x], picture.v[y * 32 + x]);
                let (eu, ev) = if x & 1 == 0 && y & 1 == 0 { (eu + 6, ev - 6) } else { (eu, ev) };
                assert_eq!((u444[y * 32 + x], v444[y * 32 + x]), (eu, ev), "{layout:?} at {x},{y}");
            }
        }
    }
}

/// A block that is not the whole picture reads the views at the block's own
/// coordinates: the second macroblock column and row of the picture.
#[test]
fn a_block_inside_the_picture_is_combined_in_place() {
    let picture = textured();
    let block = Area { left: 16, top: 16, right: 32, bottom: 32 };
    for layout in [Layout::V1, Layout::V2] {
        let (u444, _) = combined(&picture, layout, block);
        for y in 16..32 {
            for x in 16..32 {
                let expect = picture.u[y * 32 + x] + if x & 1 == 0 && y & 1 == 0 { 6 } else { 0 };
                assert_eq!(u444[(y - 16) * 16 + x - 16], expect, "{layout:?} at {x},{y}");
            }
        }
    }
}

/// The filter's two sides: a 2x2 whose corner is far from its average gets the
/// corner back; one whose corner is near keeps the average.
#[test]
fn the_filter_recovers_a_corner_only_past_the_cutoff() {
    // [100, 200, 200, 200]: average 175, reverse 100, 75 apart.
    assert_eq!(unfilter(175, 200, 200, 200), 100);
    // [100, 110, 110, 112]: average 108, reverse 100, 8 apart.
    assert_eq!(unfilter(108, 110, 110, 112), 108);
    // The reverse is clamped when the neighbours overshoot it.
    assert_eq!(unfilter(10, 250, 250, 250), 0);
}

/// A clip keeps a rectangle to both the surface and the picture and drops one
/// outside either; alignment widens within the picture.
#[test]
fn regions_are_clipped_then_aligned_within_the_picture() {
    let rect = Rect16 { left: 5, top: 3, right: 40, bottom: 60 };
    assert_eq!(Area::clip(rect, (32, 100), (48, 48)), Some(Area { left: 5, top: 3, right: 32, bottom: 48 }));
    assert_eq!(Area::clip(rect, (5, 100), (48, 48)), None);
    let area = Area { left: 5, top: 3, right: 31, bottom: 47 };
    assert_eq!(area.aligned(2, (48, 48)), Area { left: 4, top: 2, right: 32, bottom: 48 });
    assert_eq!(area.aligned(16, (48, 48)), Area { left: 0, top: 0, right: 32, bottom: 48 });
    assert_eq!(area.aligned(16, (36, 40)), Area { left: 0, top: 0, right: 32, bottom: 40 });
}

/// The rectangles the paints report, with their rows.
fn painted(paints: &[Paint]) -> Vec<(Rect16, Vec<[u8; 3]>)> {
    let mut calls = Vec::new();
    for Paint { rect, rgb, stride } in paints {
        let width = usize::from(rect.width());
        let rows = (0..usize::from(rect.height()))
            .flat_map(|row| rgb[row * stride..row * stride + width * 3].chunks(3))
            .map(|px| [px[0], px[1], px[2]])
            .collect();
        calls.push((*rect, rows));
    }
    calls
}

fn close(actual: [u8; 3], expected: [u8; 3]) -> bool {
    // The chroma filter quadruples the luma view's error at every recovered
    // sample, so a few steps of coding error — which differ between the
    // encoder's x86 and NEON paths — can be a dozen after it. The colours the
    // tests tell apart are over a hundred apart.
    actual.iter().zip(expected).all(|(a, e)| a.abs_diff(e) <= 16)
}

/// An AVC420 stream decodes and paints its masked rectangles, and only those, in
/// the colour the picture carries.
#[test]
fn an_avc420_stream_paints_its_region_in_colour() {
    let (yuv, mut stream) = ([140, 90, 170], Stream::new());
    let unit = stream.encode(flat(32, 32, yuv), 32, 32);
    let mut avc = Avc::new().unwrap();
    let regions = vec![Region { rect: Rect16 { left: 3, top: 5, right: 20, bottom: 30 }, qp: 0, progressive: false, quality: 100 }];
    let mut paints = Vec::new();
    avc.draw_420(&Avc420 { regions, bitstream: &unit }, (32, 32), &mut paints).unwrap();
    let calls = painted(&paints);
    assert_eq!(calls.len(), 1);
    assert_eq!(calls[0].0, Rect16 { left: 3, top: 5, right: 20, bottom: 30 });
    assert_eq!(calls[0].1.len(), 17 * 25);
    let expected = rgb_of(yuv);
    assert!(calls[0].1.iter().all(|px| close(*px, expected)), "{:?} vs {expected:?}", calls[0].1[0]);

    // A rectangle outside the surface paints nothing; garbage is a fault, not a
    // panic, and the decoder goes on.
    let regions = vec![Region { rect: Rect16 { left: 40, top: 0, right: 50, bottom: 8 }, qp: 0, progressive: false, quality: 100 }];
    let mut paints = Vec::new();
    avc.draw_420(&Avc420 { regions, bitstream: &unit }, (32, 32), &mut paints).unwrap();
    assert!(paints.is_empty());
    let err = avc.draw_420(&Avc420 { regions: vec![], bitstream: &[0, 0, 1, 0x65, 9, 9] }, (32, 32), &mut paints)
        .unwrap_err();
    assert!(err.to_string().contains("H.264"), "{}", err.to_string());
}

/// Both views in one stream paint the rectangle at full chroma; a chroma view on
/// its own later combines with the luma view kept from before; a chroma view
/// before any luma view is refused.
#[test]
fn an_avc444_stream_combines_its_views_through_one_decoder() {
    // Chroma the luma view alone would get wrong: a 2x2 checker of two colours
    // averages to a third, and only the combined picture has the right one.
    let (a, b) = ([120u8, 60, 200], [120u8, 200, 60]);
    let mut picture = Picture { width: 32, height: 32, y: vec![120; 32 * 32], u: vec![0; 32 * 32], v: vec![0; 32 * 32] };
    for i in 0..32 * 32 {
        let (x, y) = (i % 32, i / 32);
        let c = if (x + y) % 2 == 0 { a } else { b };
        picture.u[i] = c[1];
        picture.v[i] = c[2];
    }
    let region = |rect| Region { rect, qp: 0, progressive: false, quality: 100 };
    let whole = Rect16 { left: 0, top: 0, right: 32, bottom: 32 };
    for layout in [Layout::V1, Layout::V2] {
        let (luma, chroma) = (picture.luma_view(), picture.chroma_view(layout));
        let (luma_i420, chroma_i420) = ([luma.y, luma.u, luma.v].concat(), [chroma.y, chroma.u, chroma.v].concat());
        let mut stream = Stream::new();
        let luma_unit = stream.encode(luma_i420.clone(), 32, 32);
        let chroma_unit = stream.encode(chroma_i420.clone(), 32, 32);

        let mut avc = Avc::new().unwrap();
        let mut paints = Vec::new();
        let err = avc
            .draw_444(
                &Avc444 { luma: None, chroma: Some(Avc420 { regions: vec![region(whole)], bitstream: &chroma_unit }) },
                layout,
                (32, 32),
                &mut paints,
            )
            .unwrap_err();
        assert!(err.to_string().contains("before any luma view"), "{}", err.to_string());

        let both = Avc444 {
            luma: Some(Avc420 { regions: vec![region(whole)], bitstream: &luma_unit }),
            chroma: Some(Avc420 { regions: vec![region(whole)], bitstream: &chroma_unit }),
        };
        avc.draw_444(&both, layout, (32, 32), &mut paints).unwrap();
        let calls = painted(&paints);
        assert_eq!(calls.len(), 1, "one paint for one mask on both views: {layout:?}");
        let (ra, rb) = (rgb_of(a), rgb_of(b));
        for (i, px) in calls[0].1.iter().enumerate() {
            let expected = if (i % 32 + i / 32) % 2 == 0 { ra } else { rb };
            assert!(close(*px, expected), "{layout:?} pixel {i}: {px:?} vs {expected:?}");
        }

        // A luma view alone paints its rectangles at half chroma — the average
        // of the checker — and is kept.
        // One stream, in the order the decoder will see it: the luma view, a
        // grey picture, then the chroma view.
        let grey = [200u8, 128, 128];
        let mut stream = Stream::new();
        let luma_unit = stream.encode(luma_i420.clone(), 32, 32);
        let grey_unit = stream.encode(flat(32, 32, grey), 32, 32);
        let chroma_unit = stream.encode(chroma_i420.clone(), 32, 32);
        let mut avc = Avc::new().unwrap();
        let mut paints = Vec::new();
        let alone = Avc444 { luma: Some(Avc420 { regions: vec![region(whole)], bitstream: &luma_unit }), chroma: None };
        avc.draw_444(&alone, layout, (32, 32), &mut paints).unwrap();
        let calls = painted(&paints);
        let mean = |p: u8, q: u8| ((u16::from(p) + u16::from(q)) / 2) as u8;
        let averaged = rgb_of([120, mean(a[1], b[1]), mean(a[2], b[2])]);
        assert!(calls[0].1.iter().all(|px| close(*px, averaged)), "{layout:?}: {:?} vs {averaged:?}", calls[0].1[0]);
        // A luma view for another rectangle in between: its picture is a
        // different one everywhere, but only its rectangle is kept.
        let elsewhere = Rect16 { left: 24, top: 0, right: 32, bottom: 32 };
        let between = Avc444 { luma: Some(Avc420 { regions: vec![region(elsewhere)], bitstream: &grey_unit }), chroma: None };
        avc.draw_444(&between, layout, (32, 32), &mut paints).unwrap();
        let calls = painted(&paints);
        assert_eq!(calls[1].0, elsewhere);
        assert!(calls[1].1.iter().all(|px| close(*px, rgb_of(grey))), "{layout:?}: {:?} vs {:?}", calls[1].1[0], rgb_of(grey));
        // Then the chroma view for part of the first rectangle, in a later
        // stream: it combines with the luma view that carried that rectangle,
        // not the grey one that came after.
        let part = Rect16 { left: 4, top: 4, right: 20, bottom: 24 };
        let later = Avc444 { luma: None, chroma: Some(Avc420 { regions: vec![region(part)], bitstream: &chroma_unit }) };
        avc.draw_444(&later, layout, (32, 32), &mut paints).unwrap();
        let calls = painted(&paints);
        assert_eq!(calls.len(), 3);
        assert_eq!(calls[2].0, part);
        for (i, px) in calls[2].1.iter().enumerate() {
            let (x, y) = (4 + i % 16, 4 + i / 16);
            let expected = if (x + y) % 2 == 0 { ra } else { rb };
            assert!(close(*px, expected), "{layout:?} later pixel {x},{y}: {px:?} vs {expected:?}");
        }
    }
}

/// A mask is its rectangles: what the host says of their quality is not compared.
#[test]
fn a_mask_is_its_rectangles() {
    let region = |left, qp| Region { rect: Rect16 { left, top: 0, right: 16, bottom: 16 }, qp, progressive: false, quality: 0 };
    assert!(same_mask(&vec![region(0, 1), region(8, 2)], &vec![region(0, 3), region(8, 4)]));
    assert!(!same_mask(&vec![region(0, 1)], &vec![region(1, 1)]));
    assert!(!same_mask(&vec![region(0, 1)], &vec![region(0, 1), region(8, 2)]));
}

/// An access unit is described by its length and the types of its NAL units: parameter
/// sets, then a slice, each after a start code of three or four bytes.
#[test]
fn a_unit_is_described_by_its_nal_types() {
    let unit = [0, 0, 0, 1, 0x67, 1, 0, 0, 1, 0x68, 2, 0, 0, 1, 0x65, 3];
    assert_eq!(describe(&unit), "16 bytes, NAL types [7, 8, 5]");
    assert_eq!(describe(&[9, 9]), "2 bytes, NAL types []");
}

/// What a unit the decoder refuses, one that carries no picture, and a chroma view of
/// another size are each told as.
#[test]
fn every_fault_says_what_it_is() {
    let mut avc = Avc::new().unwrap();
    let mut paints = Vec::new();
    let regions = vec![];
    let err = avc.draw_420(&Avc420 { regions, bitstream: &[] }, (16, 16), &mut paints).unwrap_err();
    assert_eq!(err.to_string(), "an H.264 access unit of 0 bytes, NAL types [] decoded to no picture");

    let kept = Planes { width: 16, height: 16, y: vec![1; 256], u: vec![2; 64], v: vec![3; 64] };
    let other = Planes { width: 32, height: 16, y: vec![1; 512], u: vec![2; 128], v: vec![3; 128] };
    let err = show_chroma(&kept, &Views::of_planes(&other), Layout::V1, &vec![], (16, 16), &mut paints).unwrap_err();
    assert_eq!(err.to_string(), "the chroma view is 32x16 and the luma view 16x16");
    let small = Planes { width: 8, height: 8, y: vec![1; 64], u: vec![2; 16], v: vec![3; 16] };
    let err = show_chroma(&small, &Views::of_planes(&small), Layout::V2, &vec![], (16, 16), &mut paints).unwrap_err();
    assert_eq!(err.to_string(), "the picture is 8x8, which is not whole macroblocks");
    let none = AvcError::NoDecoder { cause: "no".to_owned() };
    assert_eq!(none.to_string(), "creating an H.264 decoder: no");
    assert_eq!(AvcError::Torn { width: 2, height: 3 }.to_string(), "the planes of an H.264 picture do not hold its 2x3");
    assert!(paints.is_empty());
}

/// Only the rectangle is taken, with the chroma samples that enclose it; a picture of
/// another size starts over, black.
#[test]
fn keeping_a_rectangle_leaves_the_rest_of_the_picture() {
    let mut kept = Planes::empty();
    kept.fit(4, 4);
    let from = Planes { width: 4, height: 4, y: (1..=16).collect(), u: vec![21, 22, 23, 24], v: vec![31, 32, 33, 34] };
    kept.keep(&Views::of_planes(&from), Area { left: 1, top: 1, right: 2, bottom: 3 });
    assert_eq!(kept.y, [0, 0, 0, 0, 0, 6, 0, 0, 0, 10, 0, 0, 0, 0, 0, 0]);
    assert_eq!(kept.u, [21, 0, 23, 0]);
    assert_eq!(kept.v, [31, 0, 33, 0]);
    kept.fit(4, 4);
    assert_eq!(kept.y[5], 6, "the same size keeps what it has");
    kept.fit(2, 2);
    assert_eq!((kept.y, kept.u, kept.v), (vec![0; 4], vec![0], vec![0]));
}

/// What the decoder answers is told apart: an error, no picture, a picture whose planes are
/// shorter than its size, and a whole one.
#[test]
fn the_decoders_answer_is_examined() {
    let unit = [0, 0, 1, 0x65];
    let whole = || Decoded {
        width: 4,
        height: 2,
        y: vec![9; 10],
        y_stride: 5,
        u: vec![8; 3],
        u_stride: 3,
        v: vec![7; 3],
        v_stride: 3,
    };
    let err = picture_of(Err(openh264::Error::msg("no")), &unit).err().unwrap();
    let said = err.to_string();
    assert!(said.starts_with("decoding an H.264 access unit of 4 bytes, NAL types [5]: "), "{said}");
    assert!(said.contains("User Message:Some(\"no\")"), "{said}");
    let err = picture_of(Ok(None), &unit).err().unwrap();
    assert_eq!(err.to_string(), "an H.264 access unit of 4 bytes, NAL types [5] decoded to no picture");
    let torn = Decoded { y: vec![9; 9], ..whole() };
    let err = picture_of(Ok(Some(torn)), &unit).err().unwrap();
    assert_eq!(err.to_string(), "the planes of an H.264 picture do not hold its 4x2");
    let picture = picture_of(Ok(Some(whole())), &unit).ok().unwrap();
    let window = window_420(&picture.picture(), Area { left: 2, top: 0, right: 4, bottom: 2 });
    assert_eq!((window.width, window.height, window.y_stride, window.u_stride), (2, 2, 5, 3));
    assert_eq!((window.y.len(), window.u.len(), window.v.len()), (8, 2, 2));
}

/// The paint of an area is the block's rows from the area's corner on.
#[test]
fn an_area_is_cropped_out_of_its_block() {
    let block = Area { left: 2, top: 4, right: 6, bottom: 6 };
    let area = Area { left: 3, top: 5, right: 5, bottom: 6 };
    let rgb: Vec<u8> = (0..24).collect();
    let paint = crop(area, block, &rgb);
    assert_eq!(paint.rect, Rect16 { left: 3, top: 5, right: 5, bottom: 6 });
    assert_eq!((paint.stride, paint.rgb), (12, (15..24).collect()));
}
