use rdp_client::framebuffer::{affordable, stage, Framebuffer, Rect};

#[test]
fn a_blit_lands_where_the_rectangle_says() {
    let mut fb = Framebuffer::new();
    fb.resize(4, 4);
    let src = vec![0xAB; 8];
    assert!(fb.blit(&src, Rect { x: 1, y: 2, width: 2, height: 1 }));

    fb.with(|frame| {
        // Row 2, columns 1 and 2 — and nothing else.
        for (index, byte) in frame.pixels.iter().enumerate() {
            let expected = if (36..44).contains(&index) { 0xAB } else { 0 };
            assert_eq!(*byte, expected, "byte {index}");
        }
    });
}

/// The failure this guards is a *silent* one: a stale rectangle against a
/// resized frame would otherwise read past the end of a row and shear the
/// picture.
#[test]
fn a_rectangle_that_does_not_fit_is_dropped_rather_than_clamped() {
    let mut fb = Framebuffer::new();
    fb.resize(2, 2);
    let src = vec![0xFF; 4 * 4 * 4];
    assert!(!fb.blit(&src, Rect { x: 0, y: 0, width: 4, height: 4 }));
    fb.with(|frame| assert!(frame.pixels.iter().all(|b| *b == 0)));
}

/// A source that is not the size its own rectangle asks for stops the copy
/// rather than panicking on the slice — or, worse, shearing the picture.
#[test]
fn a_source_that_is_not_its_rectangles_size_is_not_a_panic() {
    let mut fb = Framebuffer::new();
    fb.resize(4, 4);
    // Two rows of four pixels, from a buffer that holds one row.
    assert!(!fb.blit(&[0; 16], Rect { x: 0, y: 0, width: 4, height: 2 }));
    assert!(!fb.blit(&[0; 48], Rect { x: 0, y: 0, width: 4, height: 2 }));
}

/// A surface is wider than the rectangle taken out of it, so row `n` of the
/// source is `n * stride` in — not `n * width * 4` — and starts at the origin.
#[test]
fn a_blit_from_a_larger_picture_reads_the_source_at_its_own_stride() {
    let mut fb = Framebuffer::new();
    fb.resize(3, 2);
    // A 4x3 surface whose pixel (x, y) is the byte pattern [x, y, 0, 0].
    let mut surface = Vec::new();
    for y in 0..3_u8 {
        for x in 0..4_u8 {
            surface.extend_from_slice(&[x, y, 0, 0]);
        }
    }
    // Its (1, 1)..(3, 3) lands at the framebuffer's (1, 0).
    assert!(fb.blit_from(&surface, 16, (1, 1), Rect { x: 1, y: 0, width: 2, height: 2 }));
    fb.with(|frame| {
        let rows = frame.rows(Rect { x: 1, y: 0, width: 2, height: 2 });
        assert_eq!(rows[0], &[1, 1, 0, 0, 2, 1, 0, 0]);
        assert_eq!(rows[1], &[1, 2, 0, 0, 2, 2, 0, 0]);
    });
    // And a source that runs out is not a panic.
    assert!(!fb.blit_from(&surface[..40], 16, (1, 1), Rect { x: 1, y: 0, width: 2, height: 2 }));
}

#[test]
fn rectangles_overlap_union_and_clip_by_their_edges() {
    let a = Rect { x: 0, y: 0, width: 10, height: 10 };
    let b = Rect { x: 5, y: 5, width: 10, height: 10 };
    let c = Rect { x: 10, y: 0, width: 1, height: 1 };
    assert!(a.overlaps(&b));
    assert!(!a.overlaps(&c), "an edge in common is not an overlap");
    assert_eq!(a.union(b), Rect { x: 0, y: 0, width: 15, height: 15 });
    assert_eq!(b.clipped(a), Some(Rect { x: 5, y: 5, width: 5, height: 5 }));
    assert_eq!(c.clipped(a), None);
    let huge = Rect { x: u32::MAX - 1, y: 0, width: 4, height: 1 };
    assert_eq!(huge.clipped(a), None, "the arithmetic does not wrap");
}

/// A rectangle with no pixel shares none, wherever it lies.
#[test]
fn an_empty_rectangle_overlaps_nothing() {
    let whole = Rect { x: 0, y: 0, width: 10, height: 10 };
    let line = Rect { x: 5, y: 5, width: 0, height: 3 };
    assert!(!line.overlaps(&whole) && !whole.overlaps(&line) && !line.overlaps(&line));
    let mut pending = vec![whole];
    stage(&mut pending, line, 4);
    assert_eq!(pending, [whole, line]);
}

/// A server names the desktop, and this client allocates a framebuffer from what
/// it says. Both numbers are legal on the wire well past any real screen.
#[test]
fn a_desktop_too_large_to_hold_is_refused_rather_than_allocated() {
    affordable(1920, 1080).expect("an ordinary desktop");
    affordable(15360, 4320).expect("two 8K monitors side by side is still real");
    affordable(0, 0).expect("a desktop with no pixels costs nothing");

    // The largest desktop a negotiation can name, and past what this client
    // will hold.
    let err = affordable(32766, 32766).expect_err("4 GiB");
    assert!(err.to_string().contains("32766x32766"), "{}", err.to_string());
    affordable(65535, 65535).expect_err("17 GB");
    affordable(u32::MAX, u32::MAX).expect_err("the arithmetic itself must not wrap");
}

#[test]
fn rows_narrows_to_the_rectangle() {
    let mut fb = Framebuffer::new();
    fb.resize(3, 2);
    fb.with(|frame| {
        let rows = frame.rows(Rect { x: 1, y: 0, width: 2, height: 2 });
        assert_eq!(rows.len(), 2);
        assert!(rows.iter().all(|row| row.len() == 8));
        // And a rectangle hanging off the edge yields nothing rather than panicking.
        assert_eq!(frame.rows(Rect { x: 2, y: 0, width: 2, height: 1 }).len(), 0);
    });
}
