use rdp_client::proto::fastpath;
use rdp_client::proto::pointer::{Cache, Pointer, Shape, CACHE_ENTRIES, MAX_DIMENSION, MONOCHROME, RGB, RGBA};
use rdp_client::proto::wire::Malformed;

/// A New Pointer Update: the depth, the cache index, the hotspot, the size, the
/// two lengths, and then the masks the other way round.
fn new_pointer(bpp: u16, index: u16, size: (u16, u16), xor: &[u8], and: &[u8]) -> Vec<u8> {
    let mut body = Vec::new();
    for field in [bpp, index, 1, 2, size.0, size.1] {
        body.extend_from_slice(&field.to_le_bytes());
    }
    body.extend_from_slice(&u16::try_from(and.len()).unwrap().to_le_bytes());
    body.extend_from_slice(&u16::try_from(xor.len()).unwrap().to_le_bytes());
    body.extend_from_slice(xor);
    body.extend_from_slice(and);
    body
}

fn shape(update: &[u8]) -> Shape {
    let Pointer::Shape(shape) = Cache::new().update(fastpath::NEW_POINTER, update).unwrap()
    else {
        panic!("a new pointer is a shape");
    };
    shape
}

/// Two rows of two 32-bit pixels, bottom row first, and an all-opaque andMask.
fn two_by_two() -> Vec<u8> {
    let xor = [
        0x10, 0x20, 0x30, 0xFF, 0x11, 0x21, 0x31, 0xFF, // the bottom row
        0x40, 0x50, 0x60, 0xFF, 0x41, 0x51, 0x61, 0xFF, // the top row
    ];
    new_pointer(RGBA, 0, (2, 2), &xor, &[0x00; 4])
}

#[test]
fn a_shape_arrives_bottom_row_first_and_blue_first() {
    let shape = shape(&two_by_two());
    assert_eq!((shape.width, shape.height), (2, 2));
    assert_eq!((shape.hotspot_x, shape.hotspot_y), (1, 2));
    assert_eq!(
        shape.rgba,
        vec![
            0x60, 0x50, 0x40, 0xFF, 0x61, 0x51, 0x41, 0xFF, // the top row, RGBA
            0x30, 0x20, 0x10, 0xFF, 0x31, 0x21, 0x11, 0xFF,
        ]
    );
}

#[test]
fn a_thirty_two_bit_shape_keeps_the_alpha_it_carries() {
    let xor = [0x10, 0x20, 0x30, 0x80];
    let shape = shape(&new_pointer(RGBA, 0, (1, 1), &xor, &[0x00, 0x00]));
    assert_eq!(shape.rgba, vec![0x30, 0x20, 0x10, 0x80]);
}

/// The three-way rule: the andMask bit does not mean "transparent", it means
/// "not the colour you see" — and which of the two it is depends on the colour.
#[test]
fn an_and_bit_over_black_is_transparent_and_over_white_is_a_checkerboard() {
    // Four pixels in a row: opaque red, transparent, inverted, inverted.
    let xor = [
        0x00, 0x00, 0xFF, 0xFF, // red
        0x00, 0x00, 0x00, 0xFF, // black, under an and bit
        0xFF, 0xFF, 0xFF, 0xFF, // white, under an and bit
        0xFF, 0xFF, 0xFF, 0xFF, // white, under an and bit
    ];
    let shape = shape(&new_pointer(RGBA, 0, (4, 1), &xor, &[0b0111_0000, 0x00]));
    assert_eq!(
        shape.rgba,
        vec![
            0xFF, 0x00, 0x00, 0xFF, // the colour, opaque
            0x00, 0x00, 0x00, 0x00, // gone
            0xFF, 0xFF, 0xFF, 0xFF, // column 2 of row 0: the light square
            0x00, 0x00, 0x00, 0xFF, // column 3: the dark one
        ]
    );
}

/// A Colour Pointer Update has no depth field: it is always 24-bit. Three pixels
/// of it are nine bytes, and a scanline is padded to ten.
#[test]
fn a_colour_pointer_is_twenty_four_bit_and_its_rows_are_padded_to_a_word() {
    let xor = [
        0x10, 0x20, 0x30, 0x11, 0x21, 0x31, 0x12, 0x22, 0x32, //
        0xEE, // the padding, which is not a pixel
    ];
    let mut body = new_pointer(RGB, 0, (3, 1), &xor, &[0x00, 0x00]);
    body.drain(..2); // the depth, which this update does not carry
    let Pointer::Shape(shape) = Cache::new().update(fastpath::COLOR_POINTER, &body).unwrap()
    else {
        panic!("a colour pointer is a shape");
    };
    assert_eq!(
        shape.rgba,
        vec![0x30, 0x20, 0x10, 0xFF, 0x31, 0x21, 0x11, 0xFF, 0x32, 0x22, 0x12, 0xFF]
    );
}

/// The one shape whose rows are the right way up already.
#[test]
fn a_monochrome_shape_reads_top_row_first() {
    // Row 0 is one white pixel then seven black; row 1 is the reverse.
    let xor = [0b1000_0000, 0x00, 0b0111_1111, 0x00];
    let shape = shape(&new_pointer(MONOCHROME, 0, (8, 2), &xor, &[0x00; 4]));
    assert_eq!(&shape.rgba[..8], &[0xFF, 0xFF, 0xFF, 0xFF, 0x00, 0x00, 0x00, 0xFF]);
    assert_eq!(&shape.rgba[32..40], &[0x00, 0x00, 0x00, 0xFF, 0xFF, 0xFF, 0xFF, 0xFF]);
}

/// A 32-bit shape may say everything in its alpha and send no andMask at all.
#[test]
fn an_absent_and_mask_is_opaque_everywhere() {
    let xor = [0x10, 0x20, 0x30, 0xFF];
    let shape = shape(&new_pointer(RGBA, 0, (1, 1), &xor, &[]));
    assert_eq!(shape.rgba, vec![0x30, 0x20, 0x10, 0xFF]);
}

/// A Large Pointer Update is the same fields with room for a bigger mask.
#[test]
fn a_large_pointer_measures_its_masks_in_four_bytes() {
    let mut body = Vec::new();
    for field in [RGBA, 7_u16, 1, 2, 1, 1] {
        body.extend_from_slice(&field.to_le_bytes());
    }
    body.extend_from_slice(&2_u32.to_le_bytes());
    body.extend_from_slice(&4_u32.to_le_bytes());
    body.extend_from_slice(&[0x10, 0x20, 0x30, 0xFF]);
    body.extend_from_slice(&[0x00, 0x00]);
    let Pointer::Shape(shape) = Cache::new().update(fastpath::LARGE_POINTER, &body).unwrap()
    else {
        panic!("a large pointer is a shape");
    };
    assert_eq!(shape.rgba, vec![0x30, 0x20, 0x10, 0xFF]);
}

#[test]
fn the_shapes_without_a_bitmap_are_read_from_the_code_alone() {
    let mut cache = Cache::new();
    assert_eq!(cache.update(fastpath::POINTER_HIDDEN, &[]).unwrap(), Pointer::Hidden);
    assert_eq!(cache.update(fastpath::POINTER_DEFAULT, &[]).unwrap(), Pointer::Default);
    assert_eq!(
        cache.update(fastpath::POINTER_POSITION, &[0x01, 0x00, 0x02, 0x00]).unwrap(),
        Pointer::Position { x: 1, y: 2 }
    );
}

#[test]
fn a_shape_is_kept_and_handed_back_by_its_index() {
    let mut cache = Cache::new();
    let sent = cache.update(fastpath::NEW_POINTER, &new_pointer(RGBA, 5, (1, 1), &[0x10, 0x20, 0x30, 0xFF], &[0x00, 0x00])).unwrap();
    let cached = cache.update(fastpath::CACHED_POINTER, &5_u16.to_le_bytes()).unwrap();
    assert_eq!(cached, sent);
}

#[test]
fn an_index_nothing_was_stored_at_is_not_a_shape() {
    let error = Cache::new().update(fastpath::CACHED_POINTER, &5_u16.to_le_bytes()).unwrap_err();
    assert_eq!(
        error,
        Malformed::Missing {
            what: "a Cached Pointer Update",
            field: "a shape at the index it names"
        }
    );
}

#[test]
fn an_index_past_the_cache_this_client_claimed_is_refused() {
    let past = u16::try_from(CACHE_ENTRIES).unwrap();
    let update = new_pointer(RGBA, past, (1, 1), &[0x10, 0x20, 0x30, 0xFF], &[0x00, 0x00]);
    let error = Cache::new().update(fastpath::NEW_POINTER, &update).unwrap_err();
    assert!(matches!(error, Malformed::Refused { value, .. } if value == u64::from(past)));
}

#[test]
fn a_depth_this_client_cannot_unpack_is_refused_by_name() {
    let update = new_pointer(16, 0, (1, 1), &[0x10, 0x20], &[0x00, 0x00]);
    let error = Cache::new().update(fastpath::NEW_POINTER, &update).unwrap_err();
    assert_eq!(
        error,
        Malformed::Refused {
            what: "a New Pointer Update",
            field: "a pointer depth",
            value: 16
        }
    );
}

/// A mask that is nearly the right length decodes into a shape that is nearly
/// right, sheared by a byte a row — so it is refused rather than decoded.
#[test]
fn a_mask_that_is_not_the_length_its_size_asks_for_is_refused() {
    let short = new_pointer(RGBA, 0, (2, 2), &[0x00; 12], &[0x00; 4]);
    assert!(Cache::new().update(fastpath::NEW_POINTER, &short).is_err());
    let and = new_pointer(RGBA, 0, (2, 2), &[0x00; 16], &[0x00; 3]);
    assert!(Cache::new().update(fastpath::NEW_POINTER, &and).is_err());
}

#[test]
fn a_shape_bigger_than_rdp_allows_is_refused_before_it_is_measured() {
    let update = new_pointer(RGBA, 0, (MAX_DIMENSION + 1, 1), &[], &[]);
    let error = Cache::new().update(fastpath::NEW_POINTER, &update).unwrap_err();
    assert_eq!(
        error,
        Malformed::Refused {
            what: "a New Pointer Update",
            field: "a pointer width",
            value: u64::from(MAX_DIMENSION) + 1
        }
    );
}

/// A 384x384 shape must not print 590 KB of integers into a log line.
#[test]
fn pointer_debug_prints_the_size_not_the_pixels() {
    let text = shape(&two_by_two()).to_string();
    assert_eq!(text, "Shape { 2x2, hotspot 1,2, 16 bytes }");
}

/// An index shows the last shape stored at it, whatever else came in between, refused or
/// not.
#[test]
fn an_index_shows_the_last_shape_it_was_given() {
    let one = |index: u16, blue: u8| new_pointer(RGBA, index, (1, 1), &[blue, 0, 0, 0xFF], &[0, 0]);
    let mut cache = Cache::new();
    for update in [one(3, 1), one(4, 2), one(3, 5)] {
        cache.update(fastpath::NEW_POINTER, &update).unwrap();
    }
    cache.update(fastpath::NEW_POINTER, &one(3, 9)[..14]).unwrap_err();
    cache.update(fastpath::POINTER_HIDDEN, &[]).unwrap();
    let mut shown = |index: u16| match cache.update(fastpath::CACHED_POINTER, &index.to_le_bytes()) {
        Ok(Pointer::Shape(shape)) => Some(shape.rgba),
        _ => None,
    };
    assert_eq!(shown(3), Some(vec![0, 0, 5, 0xFF]));
    assert_eq!(shown(4), Some(vec![0, 0, 2, 0xFF]));
    assert_eq!((shown(5), shown(32)), (None, None));
}
