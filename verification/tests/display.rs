use rdp_client::proto::display::{
    capabilities, monitor_layout, Capabilities, CAPABILITIES, DEVICE_SCALE, ENTRY, LAYOUT,
    MONITOR_LAYOUT, PRIMARY,
};
use rdp_client::proto::wire::{Malformed, Reader, Writer};

/// A capabilities PDU as a server sends one.
fn caps(monitors: u32, a: u32, b: u32) -> Vec<u8> {
    let mut w = Writer::new();
    w.u32_le(CAPABILITIES);
    w.u32_le(20);
    w.u32_le(monitors);
    w.u32_le(a);
    w.u32_le(b);
    w.finish()
}

#[test]
fn the_capabilities_say_how_large_a_desktop_may_be_asked_for() {
    assert_eq!(
        capabilities(&caps(16, 8192, 8192)).unwrap(),
        Capabilities { monitors: 16, area: 8192 * 8192 * 16 }
    );
}

#[test]
fn a_pdu_that_is_not_the_capabilities_is_refused_by_type() {
    let layout = monitor_layout(1280, 800, 100);
    let err = capabilities(&layout).unwrap_err();
    assert!(matches!(err, Malformed::Refused { field: "a PDU type", value: 2, .. }));

    let mut truncated = caps(1, 8192, 8192);
    truncated.pop();
    let err = capabilities(&truncated).unwrap_err();
    assert!(matches!(err, Malformed::Refused { field: "a length that is not the PDU's", .. }));
}

/// The whole PDU, byte for byte: it never varies in shape, only in the four
/// numbers a caller sets.
#[test]
fn a_layout_is_one_primary_monitor_of_the_size_that_was_asked_for() {
    let bytes = monitor_layout(1280, 800, 150);
    let mut r = Reader::new("a test", &bytes);
    assert_eq!(r.u32_le().unwrap(), MONITOR_LAYOUT);
    assert_eq!(r.u32_le().unwrap(), LAYOUT);
    assert_eq!(r.u32_le().unwrap(), ENTRY);
    assert_eq!(r.u32_le().unwrap(), 1);
    assert_eq!(r.u32_le().unwrap(), PRIMARY);
    assert_eq!(r.u32_le().unwrap(), 0); // Left
    assert_eq!(r.u32_le().unwrap(), 0); // Top
    assert_eq!(r.u32_le().unwrap(), 1280);
    assert_eq!(r.u32_le().unwrap(), 800);
    assert_eq!(r.u32_le().unwrap(), 0); // PhysicalWidth
    assert_eq!(r.u32_le().unwrap(), 0); // PhysicalHeight
    assert_eq!(r.u32_le().unwrap(), 0); // Orientation, never rotated
    assert_eq!(r.u32_le().unwrap(), 150);
    assert_eq!(r.u32_le().unwrap(), DEVICE_SCALE);
    assert!(r.is_empty());
    assert_eq!(bytes.len(), LAYOUT as usize);
}

/// A window is whatever size the person made it; a desktop has to be one the
/// protocol allows.
#[test]
fn a_size_a_host_would_refuse_is_brought_into_range_rather_than_sent() {
    let sizes =
        [((1367, 768), (1366, 768)), ((100, 99), (200, 200)), ((9000, 9000), (8192, 8192))];
    for (asked, sent) in sizes {
        let bytes = monitor_layout(asked.0, asked.1, 100);
        let mut r = Reader::new("a test", &bytes[28..]);
        assert_eq!((r.u32_le().unwrap(), r.u32_le().unwrap()), sent, "asked for {asked:?}");
    }
}

/// The two scale factors are read as a pair, so one out of range means neither is
/// sent.
#[test]
fn a_scale_the_server_would_ignore_is_left_out_with_the_one_beside_it() {
    for scale in [0, 99, 501] {
        let bytes = monitor_layout(1280, 800, scale);
        assert_eq!(&bytes[48..], &[0; 8], "a scale of {scale}");
    }
    let bytes = monitor_layout(1280, 800, 500);
    assert_eq!(&bytes[48..], &[0xF4, 0x01, 0, 0, 100, 0, 0, 0]);
}
