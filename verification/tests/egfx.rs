use rdp_client::egfx::{Region, Update, Updates};
use rdp_client::framebuffer::Rect;

fn region(left: u16, top: u16, right: u16, bottom: u16) -> Region {
    Region { left, top, right, bottom, rgba: vec![left as u8] }
}

/// A reset goes first, then a paint for each region that encloses anything, then the end
/// of the frame; taking them leaves nothing.
#[test]
fn what_happened_is_queued_in_the_order_it_is_applied() {
    let mut updates = Updates::new();
    updates.reset(8, 6);
    updates.drained(vec![region(1, 2, 4, 6), region(5, 0, 5, 3), region(4, 4, 2, 6), region(0, 0, 1, 1)]);
    assert_eq!(
        updates.take(),
        [
            Update::Reset { width: 8, height: 6 },
            Update::Paint { rect: Rect { x: 1, y: 2, width: 3, height: 4 }, rgba: vec![1] },
            Update::Paint { rect: Rect { x: 0, y: 0, width: 1, height: 1 }, rgba: vec![0] },
            Update::FrameEnd,
        ]
    );
    assert!(updates.take().is_empty());
}

/// A message that produced no regions finished no frame; one whose regions are all empty
/// still did.
#[test]
fn a_frame_ends_only_where_regions_were_committed() {
    let mut updates = Updates::new();
    updates.drained(vec![]);
    assert!(updates.take().is_empty());
    updates.drained(vec![region(5, 0, 5, 3)]);
    assert_eq!(updates.take(), [Update::FrameEnd]);
}
