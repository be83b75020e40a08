use rdp_client::proto::avc::{avc420, avc444, Region};
use rdp_client::proto::gfx::Rect16;
use rdp_client::proto::wire::{Malformed, Writer};

/// A rectangle, its quantization byte and its quality.
type Spec = ((u16, u16, u16, u16), u8, u8);

fn metablock(regions: &[Spec]) -> Vec<u8> {
    let mut w = Writer::new();
    w.u32_le(u32::try_from(regions.len()).unwrap());
    for (rect, _, _) in regions {
        w.u16_le(rect.0);
        w.u16_le(rect.1);
        w.u16_le(rect.2);
        w.u16_le(rect.3);
    }
    for (_, qp, quality) in regions {
        w.u8(*qp);
        w.u8(*quality);
    }
    w.finish()
}

/// The bytes of a stream with both views, or one, as [MS-RDPEGFX] 2.2.4.5 lays
/// them out.
fn wrap444(luma: Option<&[u8]>, chroma: Option<&[u8]>) -> Vec<u8> {
    let mut w = Writer::new();
    let (lc, first) = match (luma, chroma) {
        (Some(luma), Some(_)) => (0u32, luma.len() as u32),
        (Some(luma), None) => (1, luma.len() as u32),
        (None, Some(_)) => (2, 0),
        (None, None) => panic!("a stream with neither view"),
    };
    w.u32_le(lc << 30 | first);
    if let Some(luma) = luma {
        w.bytes(luma);
    }
    if let Some(chroma) = chroma {
        w.bytes(chroma);
    }
    w.finish()
}

#[test]
fn a_metablock_reads_its_rectangles_and_quantization_then_the_bitstream_is_the_rest() {
    let mut data = metablock(&[((0, 0, 64, 48), 0x80 | 22, 90), ((64, 0, 128, 16), 30, 100)]);
    data.extend_from_slice(&[0, 0, 0, 1, 0x65, 0xAA]);
    let stream = avc420(&data).unwrap();
    assert_eq!(stream.regions, vec![
        Region { rect: Rect16 { left: 0, top: 0, right: 64, bottom: 48 }, qp: 22, progressive: true, quality: 90 },
        Region { rect: Rect16 { left: 64, top: 0, right: 128, bottom: 16 }, qp: 30, progressive: false, quality: 100 },
    ]);
    assert_eq!(stream.bitstream, &[0, 0, 0, 1, 0x65, 0xAA]);
    // No regions is a legal, empty mask.
    let stream = avc420(&[0, 0, 0, 0, 7]).unwrap();
    assert!(stream.regions.is_empty());
    assert_eq!(stream.bitstream, &[7]);
}

#[test]
fn a_metablock_that_lies_about_its_length_is_refused() {
    // Three regions announced, bytes for none.
    assert!(matches!(avc420(&[3, 0, 0, 0, 1, 2]), Err(Malformed::Refused { .. })));
    // A rectangle with no width.
    let data = metablock(&[((4, 4, 4, 8), 0, 0)]);
    assert!(matches!(avc420(&data), Err(Malformed::Refused { .. })));
    // Cut off inside the quantization values: the count's bytes are checked
    // before anything is read, so this is a refusal, not a short read.
    let mut data = metablock(&[((0, 0, 1, 1), 0, 0)]);
    data.pop();
    assert!(matches!(avc420(&data), Err(Malformed::Refused { .. })));
    // Cut off inside the count itself.
    assert!(matches!(avc420(&[1, 0]), Err(Malformed::Short { .. })));
}

#[test]
fn a_444_stream_splits_into_the_views_lc_names() {
    let mut luma = metablock(&[((0, 0, 16, 16), 20, 80)]);
    luma.extend_from_slice(&[1, 2, 3]);
    let mut chroma = metablock(&[((0, 0, 16, 16), 24, 80)]);
    chroma.extend_from_slice(&[4, 5]);

    let wrapped = wrap444(Some(&luma), Some(&chroma));
    let both = avc444(&wrapped).unwrap();
    assert_eq!(both.luma.as_ref().unwrap().bitstream, &[1, 2, 3]);
    assert_eq!(both.chroma.as_ref().unwrap().bitstream, &[4, 5]);
    assert_eq!(both.chroma.unwrap().regions[0].qp, 24);

    let wrapped = wrap444(Some(&luma), None);
    let alone = avc444(&wrapped).unwrap();
    assert_eq!(alone.luma.unwrap().bitstream, &[1, 2, 3]);
    assert!(alone.chroma.is_none());

    let wrapped = wrap444(None, Some(&chroma));
    let alone = avc444(&wrapped).unwrap();
    assert!(alone.luma.is_none());
    assert_eq!(alone.chroma.unwrap().bitstream, &[4, 5]);
}

#[test]
fn a_444_stream_with_a_bad_lc_or_a_first_view_past_the_end_is_refused() {
    let err = avc444(&[0, 0, 0, 0xC0, 0, 0, 0, 0]).unwrap_err();
    assert!(matches!(err, Malformed::Refused { field: "LC", value: 3, .. }), "{}", err.to_string());
    // LC 0 with a first-stream length past the PDU.
    let err = avc444(&[9, 0, 0, 0, 0, 0, 0, 0]).unwrap_err();
    assert!(matches!(err, Malformed::Short { .. }), "{}", err.to_string());
    // Only the header.
    assert!(matches!(avc444(&[0, 0, 0]), Err(Malformed::Short { .. })));
}
