use rdp_client::proto::nsc::Nsc;

fn header(planes: [usize; 4], loss: u8, subsampled: bool) -> Vec<u8> {
    let mut v = Vec::new();
    for p in planes {
        v.extend_from_slice(&(p as u32).to_le_bytes());
    }
    v.extend_from_slice(&[loss, u8::from(subsampled), 0, 0]);
    v
}

fn decode(src: &[u8], w: u16, h: u16) -> Vec<[u8; 3]> {
    Nsc::decode(src, w, h).unwrap().chunks(3).map(|bgr| [bgr[0], bgr[1], bgr[2]]).collect()
}

/// Raw planes, no subsampling, no colour loss: YCoCg back to RGB exactly.
#[test]
fn raw_planes_convert_from_ycocg() {
    // One pixel: Y = 100, Co = 20, Cg = -10 (0xF6), alpha whatever.
    let mut src = header([1, 1, 1, 1], 1, false);
    src.extend_from_slice(&[100, 20, 0xF6, 0xFF]);
    // r = y + co - cg = 130, g = y + cg = 90, b = y - co - cg = 90.
    assert_eq!(decode(&src, 1, 1), vec![[90, 90, 130]]);
}

/// A run-length plane: a run of one value, then the raw tail every plane ends in.
#[test]
fn a_run_length_plane_fills_its_run_then_copies_the_tail() {
    // A 4×4 luma plane of 16: twelve 100s as a run (100, 100, 10), then four raw.
    let y = [100, 100, 10, 1, 2, 3, 4];
    let mut src = header([y.len(), 0, 0, 0], 1, false);
    src.extend_from_slice(&y);
    let out = decode(&src, 4, 4);
    // Empty chroma planes fill with 0xFF, which as a signed byte is -1:
    // r = y - 1 + 1 = y, g = y - 1, b = y + 1 + 1 = y + 2.
    assert_eq!(out[0], [102, 99, 100]);
    assert_eq!(out[11], [102, 99, 100]);
    assert_eq!(out[12], [3, 0, 1]);
    assert_eq!(out[15], [6, 3, 4]);
}

/// Subsampled chroma: one chroma sample serves a 2×2 block, planes are padded to
/// eight wide and two tall, and colour loss restores dropped bits as zeros.
#[test]
fn subsampled_chroma_serves_each_two_by_two_block() {
    // 2×2 pixels: luma plane 8 wide × 2, chroma 4 × 1, alpha 4. Colour loss 3
    // drops two bits: a stored Co of 5 is 20 back.
    let mut src = header([16, 4, 4, 4], 3, true);
    src.extend_from_slice(&[50, 60, 0, 0, 0, 0, 0, 0, 70, 80, 0, 0, 0, 0, 0, 0]);
    src.extend_from_slice(&[5, 0, 0, 0]); // Co
    src.extend_from_slice(&[0, 0, 0, 0]); // Cg
    src.extend_from_slice(&[0xFF; 4]);
    let out = decode(&src, 2, 2);
    assert_eq!(out, vec![[30, 50, 70], [40, 60, 80], [50, 70, 90], [60, 80, 100]]);
}

/// A colour loss level outside 1..=7 and a run past its plane are each refused.
#[test]
fn bad_headers_and_runs_are_refused() {
    let mut src = header([1, 1, 1, 1], 0, false);
    src.extend_from_slice(&[0; 4]);
    assert!(Nsc::decode(&src, 1, 1).is_err());
    let y = [7, 7, 0xFF, 100, 0, 0, 0];
    let mut src = header([y.len(), 0, 0, 0], 1, false);
    src.extend_from_slice(&y);
    assert!(Nsc::decode(&src, 4, 4).is_err());
}
