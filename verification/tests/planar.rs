use rdp_client::proto::planar::{decompress, NO_ALPHA, RLE, SUBSAMPLED};
use rdp_client::proto::wire::Malformed;

/// The three colour planes of a 2x2 bitmap, written out plainly.
fn raw(header: u8, planes: &[u8]) -> Vec<u8> {
    let mut stream = vec![header];
    stream.extend_from_slice(planes);
    // The padding byte a stream that was not run-length coded ends with.
    stream.push(0);
    stream
}

fn decoded(stream: &[u8], width: u16, height: u16) -> Vec<u8> {
    let (mut planes, mut pixels) = (Vec::new(), Vec::new());
    decompress(stream, &mut planes, &mut pixels, width, height).expect("a planar bitmap");
    pixels
}

/// Plane order is the one thing here that cannot be reasoned out of a hex dump:
/// red, green and blue, and the answer is blue first because that is how an
/// uncompressed bitmap arrives and how everything above this reads one.
#[test]
fn three_planes_are_woven_back_into_pixels_blue_first() {
    let stream = raw(NO_ALPHA, &[1, 2, 3, 4, 5, 6, 7, 8, 9, 10, 11, 12]);
    assert_eq!(decoded(&stream, 2, 2), vec![
        9, 5, 1, 0, //
        10, 6, 2, 0, //
        11, 7, 3, 0, //
        12, 8, 4, 0,
    ]);
}

/// A desktop has no transparency, so an alpha plane is read past rather than
/// kept — and reading past it is the only way to find the planes behind it.
#[test]
fn an_alpha_plane_is_stepped_over_rather_than_rendered() {
    let mut planes = vec![0xFF; 4];
    planes.extend_from_slice(&[1, 2, 3, 4, 5, 6, 7, 8, 9, 10, 11, 12]);
    assert_eq!(decoded(&raw(0, &planes), 2, 2), decoded(
        &raw(NO_ALPHA, &planes[4..]),
        2,
        2
    ));
}

/// One plane of an 8x2 bitmap: three literal bytes and a run of five more of the
/// third, then a row below coded as no difference at all.
fn plane(first: u8, second: u8, third: u8) -> Vec<u8> {
    vec![0x35, first, second, third, 0x08]
}

#[test]
fn a_run_repeats_the_literal_before_it_and_a_row_of_zero_differences_repeats_the_row_above() {
    let mut stream = vec![RLE | NO_ALPHA];
    stream.extend(plane(1, 2, 3));
    stream.extend(plane(4, 5, 6));
    stream.extend(plane(7, 8, 9));
    let mut row = vec![7, 4, 1, 0, 8, 5, 2, 0];
    row.extend([9, 6, 3, 0].repeat(6));
    assert_eq!(decoded(&stream, 8, 2), [row.clone(), row].concat());
}

/// A difference is zig-zagged: the bottom bit is the sign, so minus one is 1.
#[test]
fn a_row_is_the_difference_from_the_row_above_it_and_may_go_downwards() {
    // One literal and a run of three, then four literal differences of minus one.
    let coded = |value: u8| vec![0x13, value, 0x40, 1, 1, 1, 1];
    let mut stream = vec![RLE | NO_ALPHA];
    stream.extend(coded(100));
    stream.extend(coded(0));
    stream.extend(coded(200));
    let top = [200, 0, 100, 0];
    let below = [199, 255, 99, 0];
    assert_eq!(decoded(&stream, 4, 2), [[top; 4].concat(), [below; 4].concat()].concat());
}

/// The long forms of the control byte, which are how a flat row of any width is
/// coded: a run field of 1 or 2 means sixteen or thirty-two, plus what would
/// otherwise have been the literal count.
#[test]
fn a_long_run_holds_its_length_in_the_field_the_literals_would_have_used() {
    let (mut planes, mut pixels) = (Vec::new(), Vec::new());
    // One literal, then a run of 32 + 15 of it, then a run of 16 more: a row of
    // 64, in four bytes. A long run carries no literals of its own, so what it
    // repeats is the literal a segment before it left behind.
    let coded = |value: u8| vec![0x10, value, 0xF2, 0x01];
    let mut stream = vec![RLE | NO_ALPHA];
    stream.extend(coded(7));
    stream.extend(coded(8));
    stream.extend(coded(9));
    decompress(&stream, &mut planes, &mut pixels, 64, 1).expect("a planar bitmap");
    assert_eq!(pixels, [9, 8, 7, 0].repeat(64));
}

#[test]
fn a_lossy_stream_this_client_never_asked_for_is_refused_by_name() {
    let (mut planes, mut pixels) = (Vec::new(), Vec::new());
    let mut refuse = |header: u8| {
        decompress(&raw(header, &[0; 12]), &mut planes, &mut pixels, 2, 2)
            .unwrap_err()
            .to_string()
    };
    assert_eq!(
        refuse(NO_ALPHA | 1),
        "an RDP planar bitmap carries a colour loss level 0x1, which this client does not \
         accept"
    );
    assert_eq!(
        refuse(NO_ALPHA | SUBSAMPLED),
        "an RDP planar bitmap carries subsampled chroma 0x28, which this client does not accept"
    );
}

#[test]
fn a_stream_that_ends_inside_its_planes_is_short_rather_than_a_panic() {
    let (mut planes, mut pixels) = (Vec::new(), Vec::new());
    let err = decompress(&raw(NO_ALPHA, &[0; 8]), &mut planes, &mut pixels, 2, 2).unwrap_err();
    assert_eq!(
        err.to_string(),
        "an RDP planar bitmap is 10 bytes, and reading 13 more at offset 1 runs past the end"
    );

    // And a coded plane that stops in the middle of a row is the same answer.
    let err =
        decompress(&[RLE | NO_ALPHA, 0x40, 1], &mut planes, &mut pixels, 4, 2).unwrap_err();
    assert!(matches!(err, Malformed::Short { .. }), "{}", err.to_string());
}

/// A segment that would write past the end of its row is a stream that does not
/// describe the bitmap it was sent for.
#[test]
fn a_segment_wider_than_its_row_is_refused() {
    let (mut planes, mut pixels) = (Vec::new(), Vec::new());
    let stream = [RLE | NO_ALPHA, 0x28, 1, 2];
    let err = decompress(&stream, &mut planes, &mut pixels, 4, 1).unwrap_err();
    assert_eq!(
        err.to_string(),
        "an RDP planar bitmap carries a segment that runs past its row 0x28, which this \
         client does not accept"
    );
}
