use rdp_client::proto::gfx::{
    caps_advertise, frame_acknowledge, messages, pdu, Message, Point16, Rect16, CAPS_AVC_DISABLED,
    CAPS_SMALL_CACHE, CAPVERSION_10, CAPVERSION_8, CMD_CAPS_ADVERTISE, CMD_CAPS_CONFIRM,
    CMD_CREATE_SURFACE, CMD_DELETE_SURFACE, CMD_END_FRAME, CMD_EVICT_CACHE_ENTRY,
    CMD_MAP_SURFACE_TO_OUTPUT, CMD_RESET_GRAPHICS, CMD_SOLID_FILL, CMD_START_FRAME,
    CMD_SURFACE_TO_CACHE, CMD_SURFACE_TO_SURFACE, CMD_WIRE_TO_SURFACE_1, CODEC_PLANAR,
    CODEC_UNCOMPRESSED, PIXEL_XRGB_8888,
};
use rdp_client::proto::wire::{Malformed, Reader, Writer};

/// A server PDU, headed the way a server heads one.
fn server(command: u16, body: &[u8]) -> Vec<u8> {
    pdu(command, body)
}

fn rect(left: u16, top: u16, right: u16, bottom: u16) -> Vec<u8> {
    let mut w = Writer::new();
    w.u16_le(left);
    w.u16_le(top);
    w.u16_le(right);
    w.u16_le(bottom);
    w.finish()
}

fn one(bytes: &[u8]) -> Message<'_> {
    let mut all = messages(bytes);
    let message = all.next().expect("one PDU").expect("a well-formed PDU");
    assert!(all.next().is_none(), "exactly one PDU");
    message
}

/// The header's length is what delimits PDUs in a buffer that holds several,
/// and what lets one this client does not read be stepped over.
#[test]
fn a_buffer_holds_several_pdus_and_an_unknown_one_is_stepped_over_by_length() {
    let mut buffer = server(CMD_START_FRAME, &[1, 0, 0, 0, 7, 0, 0, 0]);
    buffer.extend(server(0x0019, &[0xAA; 5])); // ProtectSurface, unread
    buffer.extend(server(CMD_END_FRAME, &[7, 0, 0, 0]));
    let mut all = messages(&buffer);
    let mut decoded = Vec::new();
    while let Some(message) = all.next() {
        decoded.push(message.unwrap());
    }
    assert_eq!(decoded, vec![
        Message::StartFrame { timestamp: 1, frame: 7 },
        Message::Other { command: 0x0019, length: 13 },
        Message::EndFrame { frame: 7 },
    ]);
}

#[test]
fn a_wire_to_surface_carries_its_rectangle_and_borrows_its_pixels() {
    let mut body = Writer::new();
    body.u16_le(3); // surface
    body.u16_le(CODEC_PLANAR);
    body.u8(PIXEL_XRGB_8888);
    body.bytes(&rect(10, 20, 14, 22));
    body.u32_le(3);
    body.bytes(&[9, 8, 7]);
    let bytes = server(CMD_WIRE_TO_SURFACE_1, &body.finish());
    let Message::WireToSurface1 { surface, codec, format, rect, data } = one(&bytes) else {
        panic!("a WireToSurface1");
    };
    assert_eq!((surface, codec, format), (3, CODEC_PLANAR, PIXEL_XRGB_8888));
    assert_eq!(rect, Rect16 { left: 10, top: 20, right: 14, bottom: 22 });
    assert_eq!((rect.width(), rect.height()), (4, 2));
    assert_eq!(data, &[9, 8, 7]);
}

#[test]
fn a_reset_graphics_names_the_output_and_steps_over_its_monitors() {
    let mut body = Writer::new();
    body.u32_le(1600);
    body.u32_le(900);
    body.u32_le(1);
    body.zeros(20); // one monitor definition
    body.zeros(340 - 8 - 12 - 20); // padding to 340 bytes in all
    let bytes = server(CMD_RESET_GRAPHICS, &body.finish());
    assert_eq!(bytes.len(), 340);
    assert_eq!(one(&bytes), Message::ResetGraphics { width: 1600, height: 900, monitors: 1 });
}

#[test]
fn the_surface_lifecycle_pdus_decode_to_their_fields() {
    let create = server(CMD_CREATE_SURFACE, &[1, 0, 0x00, 0x05, 0x84, 0x03, PIXEL_XRGB_8888]);
    assert_eq!(one(&create), Message::CreateSurface {
        surface: 1,
        width: 1280,
        height: 900,
        format: PIXEL_XRGB_8888
    });
    let map = server(CMD_MAP_SURFACE_TO_OUTPUT, &[1, 0, 0, 0, 0, 0, 0, 0, 32, 0, 0, 0]);
    assert_eq!(one(&map), Message::MapSurfaceToOutput { surface: 1, x: 0, y: 32 });
    assert_eq!(one(&server(CMD_DELETE_SURFACE, &[1, 0])), Message::DeleteSurface { surface: 1 });
    let confirm = server(CMD_CAPS_CONFIRM, &[0x02, 0x00, 0x0A, 0x00, 4, 0, 0, 0, 0x22, 0, 0, 0]);
    assert_eq!(one(&confirm), Message::CapsConfirm { version: CAPVERSION_10, flags: 0x22 });
}

#[test]
fn the_copy_and_cache_pdus_decode_their_lists() {
    let mut body = Writer::new();
    body.u16_le(1);
    body.bytes(&[10, 20, 30, 0xFF]);
    body.u16_le(2);
    body.bytes(&rect(0, 0, 4, 4));
    body.bytes(&rect(8, 8, 9, 9));
    let bytes = server(CMD_SOLID_FILL, &body.finish());
    let fill = one(&bytes);
    let Message::SolidFill { surface: 1, color: [10, 20, 30, 0xFF], rects } = fill else {
        panic!("{fill:?}");
    };
    assert_eq!(rects.len(), 2);

    let mut body = Writer::new();
    body.u16_le(1);
    body.u16_le(2);
    body.bytes(&rect(0, 0, 4, 4));
    body.u16_le(1);
    body.u16_le(100);
    body.u16_le(200);
    let bytes = server(CMD_SURFACE_TO_SURFACE, &body.finish());
    let copy = one(&bytes);
    let Message::SurfaceToSurface { src: 1, dst: 2, rect: _, points } = copy else {
        panic!("{copy:?}");
    };
    assert_eq!(points, vec![Point16 { x: 100, y: 200 }]);

    let mut body = Writer::new();
    body.u16_le(1);
    body.u32_le(0xDDCC_BBAA);
    body.u32_le(0x0403_0201);
    body.u16_le(7);
    body.bytes(&rect(0, 0, 4, 4));
    let bytes = server(CMD_SURFACE_TO_CACHE, &body.finish());
    let cache = one(&bytes);
    let Message::SurfaceToCache { key: 0x0403_0201_DDCC_BBAA, slot: 7, .. } = cache else {
        panic!("{cache:?}");
    };
    assert_eq!(one(&server(CMD_EVICT_CACHE_ENTRY, &[7, 0])), Message::EvictCacheEntry { slot: 7 });
}

/// A rectangle with nothing inside it is not a rectangle a server draws.
#[test]
fn an_empty_rectangle_is_refused() {
    let mut body = Writer::new();
    body.u16_le(1);
    body.u16_le(CODEC_UNCOMPRESSED);
    body.u8(PIXEL_XRGB_8888);
    body.bytes(&rect(10, 20, 10, 22));
    body.u32_le(0);
    let bytes = server(CMD_WIRE_TO_SURFACE_1, &body.finish());
    let err = messages(&bytes).next().unwrap().unwrap_err();
    assert!(matches!(err, Malformed::Refused { value: 10, .. }), "{}", err.to_string());
}

/// The iteration ends at a header that does not fit or a length that lies: what
/// follows is at an offset nothing vouches for.
#[test]
fn a_bad_header_ends_the_buffer() {
    let mut buffer = server(CMD_END_FRAME, &[7, 0, 0, 0]);
    buffer.extend([CMD_END_FRAME as u8, 0, 0, 0, 4, 0, 0, 0]); // a length under the header
    buffer.extend(server(CMD_END_FRAME, &[8, 0, 0, 0]));
    let mut all = messages(&buffer);
    assert!(all.next().unwrap().is_ok());
    let err = all.next().unwrap().unwrap_err();
    assert!(matches!(err, Malformed::Refused { field: "a PDU length shorter than its header", .. }));
    assert!(all.next().is_none(), "nothing after a bad header is read");

    let mut truncated = server(CMD_END_FRAME, &[7, 0, 0, 0]);
    truncated.pop();
    let err = messages(&truncated).next().unwrap().unwrap_err();
    assert!(matches!(err, Malformed::Short { .. }));
}

/// The two PDUs this client writes, byte for byte.
#[test]
fn the_caps_advertise_and_the_frame_acknowledge_are_written_whole() {
    let caps = caps_advertise();
    let mut r = Reader::new("a test", &caps);
    assert_eq!(r.u16_le().unwrap(), CMD_CAPS_ADVERTISE);
    assert_eq!(r.u16_le().unwrap(), 0);
    assert_eq!(r.u32_le().unwrap() as usize, caps.len());
    assert_eq!(r.u16_le().unwrap(), 2);
    assert_eq!(
        (r.u32_le().unwrap(), r.u32_le().unwrap(), r.u32_le().unwrap()),
        (CAPVERSION_8, 4, CAPS_SMALL_CACHE)
    );
    assert_eq!(
        (r.u32_le().unwrap(), r.u32_le().unwrap(), r.u32_le().unwrap()),
        (CAPVERSION_10, 4, CAPS_SMALL_CACHE | CAPS_AVC_DISABLED)
    );
    assert!(r.is_empty());

    assert_eq!(frame_acknowledge(7, 3), vec![
        0x0D, 0x00, 0x00, 0x00, 20, 0, 0, 0, // header
        0, 0, 0, 0, // queueDepth
        7, 0, 0, 0, // frameId
        3, 0, 0, 0, // totalFramesDecoded
    ]);
}

/// Two buffers one after the other hold the PDUs of the first and then those of the second,
/// and one that runs past the end says so from the start of the whole.
#[test]
fn buffers_one_after_the_other_are_read_in_turn() {
    fn all(bytes: &[u8]) -> (Vec<Message<'_>>, Option<Malformed>) {
        let mut left = messages(bytes);
        let mut got = Vec::new();
        loop {
            match left.next() {
                Some(Ok(message)) => got.push(message),
                Some(Err(e)) => {
                    assert!(left.next().is_none(), "nothing is read past a fault");
                    return (got, Some(e));
                }
                None => return (got, None),
            }
        }
    }
    let a = server(CMD_END_FRAME, &[1, 0, 0, 0]);
    let mut b = server(CMD_END_FRAME, &[2, 0, 0, 0]);
    b.extend_from_slice(&[9, 9, 9]);
    let both = [a.clone(), b.clone()].concat();
    let (first, none) = all(&a);
    let (second, cut) = all(&b);
    let (whole, fault) = all(&both);
    assert_eq!((first.len(), second.len(), none), (1, 1, None));
    assert_eq!(format!("{whole:?}"), format!("{:?}", [first, second].concat()));
    let (Some(Malformed::Short { len, at, .. }), Some(Malformed::Short { len: l, at: i, .. })) = (cut, fault) else {
        panic!("both run past the end");
    };
    assert_eq!((l, i), (len + a.len(), at + a.len()));
    assert_eq!(all(&[]), (vec![], None));
}
