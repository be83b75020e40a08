use rdp_client::proto::bitmap::{
    update, Scratch, COMPRESSED, COMPRESSION_HEADER, DEPTH, NO_COMPRESSION_HEADER, UPDATE_BITMAP,
};
use rdp_client::proto::wire::Writer;

/// One `TS_BITMAP_DATA`, as a server writes it.
struct Rectangle<'a> {
    x: u16,
    y: u16,
    paint: (u16, u16),
    size: (u16, u16),
    flags: u16,
    data: &'a [u8],
}

impl Rectangle<'_> {
    fn encode(&self) -> Vec<u8> {
        let mut w = Writer::new();
        w.u16_le(self.x);
        w.u16_le(self.y);
        // The far edges are inclusive.
        w.u16_le(self.x + self.paint.0 - 1);
        w.u16_le(self.y + self.paint.1 - 1);
        w.u16_le(self.size.0);
        w.u16_le(self.size.1);
        w.u16_le(DEPTH);
        w.u16_le(self.flags);
        w.u16_le(u16::try_from(self.data.len()).unwrap());
        w.bytes(self.data);
        w.finish()
    }
}

fn pdu(rectangles: &[Rectangle<'_>]) -> Vec<u8> {
    let mut body = UPDATE_BITMAP.to_le_bytes().to_vec();
    body.extend_from_slice(&u16::try_from(rectangles.len()).unwrap().to_le_bytes());
    for rectangle in rectangles {
        body.extend(rectangle.encode());
    }
    body
}

fn plain(x: u16, y: u16, paint: (u16, u16), size: (u16, u16), data: &[u8]) -> Rectangle<'_> {
    Rectangle { x, y, paint, size, flags: 0, data }
}

#[test]
fn an_update_says_where_each_of_its_rectangles_goes() {
    let body = pdu(&[
        plain(0, 0, (1, 1), (1, 1), &[0; 4]),
        plain(64, 32, (2, 1), (2, 1), &[0; 8]),
    ]);
    let rectangles = update(&body).expect("a Bitmap Update");
    assert_eq!(rectangles.len(), 2);
    assert_eq!((rectangles[1].x, rectangles[1].y), (64, 32));
    assert_eq!((rectangles[1].paint_width, rectangles[1].paint_height), (2, 1));
}

/// Both of the details that produce a picture that is nearly right: the rows
/// arrive bottom first, and the channels arrive blue first.
#[test]
fn a_rectangle_comes_out_the_right_way_up_with_red_first() {
    let data = [
        10, 20, 30, 0, 11, 21, 31, 0, // the bottom row of the picture
        40, 50, 60, 0, 41, 51, 61, 0, // and the top one
    ];
    let body = pdu(&[plain(0, 0, (2, 2), (2, 2), &data)]);
    let rectangle = update(&body).unwrap()[0];

    let (mut scratch, mut out) = (Scratch::new(), Vec::new());
    rectangle.decode(&mut scratch, &mut out).expect("an uncompressed rectangle");
    assert_eq!(out, vec![
        60, 50, 40, 0, 61, 51, 41, 0, //
        30, 20, 10, 0, 31, 21, 11, 0,
    ]);
    assert_eq!(out.len() as u64, rectangle.painted_bytes());
}

/// A server rounds the bitmap's width up past the rectangle it is painting, and
/// the columns that buys are not part of the picture.
#[test]
fn a_bitmap_wider_than_its_rectangle_keeps_only_the_rectangle() {
    let mut data = Vec::new();
    for row in 0..2_u8 {
        for column in 0..4_u8 {
            data.extend_from_slice(&[column, row, 0, 0]);
        }
    }
    let body = pdu(&[plain(0, 0, (2, 1), (4, 2), &data)]);
    let rectangle = update(&body).unwrap()[0];

    let (mut scratch, mut out) = (Scratch::new(), Vec::new());
    rectangle.decode(&mut scratch, &mut out).expect("an uncompressed rectangle");
    // The top row — which arrived last — and only its first two pixels.
    assert_eq!(out, vec![0, 1, 0, 0, 0, 1, 1, 0]);
}

/// The header says the length a second time, and a server that was asked to leave
/// it out may send it anyway. Both shapes have to reach the decoder as one.
#[test]
fn a_compression_header_is_stepped_over_when_a_server_sends_one() {
    let mut data = vec![0xFF; usize::from(COMPRESSION_HEADER)];
    // A planar stream of one flat 2x2 plane per colour, written out plainly.
    data.extend_from_slice(&[0x20, 1, 1, 1, 1, 2, 2, 2, 2, 3, 3, 3, 3, 0]);
    let rectangle = Rectangle { x: 0, y: 0, paint: (2, 2), size: (2, 2), flags: COMPRESSED, data: &data };
    let body = pdu(&[rectangle]);
    let rectangle = update(&body).unwrap()[0];
    assert!(rectangle.compressed);

    let (mut scratch, mut out) = (Scratch::new(), Vec::new());
    rectangle.decode(&mut scratch, &mut out).expect("a compressed rectangle");
    assert_eq!(out, [1, 2, 3, 0].repeat(4));

    // And the same stream with the header left out, as this client asked for.
    let rectangle = Rectangle {
        x: 0,
        y: 0,
        paint: (2, 2),
        size: (2, 2),
        flags: COMPRESSED | NO_COMPRESSION_HEADER,
        data: &data[usize::from(COMPRESSION_HEADER)..],
    };
    let body = pdu(&[rectangle]);
    let rectangle = update(&body).unwrap()[0];
    let mut again = Vec::new();
    rectangle.decode(&mut scratch, &mut again).expect("a compressed rectangle");
    assert_eq!(again, out);
}

#[test]
fn a_depth_the_session_is_not_is_refused_rather_than_guessed_at() {
    let mut body = pdu(&[plain(0, 0, (1, 1), (1, 1), &[0; 4])]);
    // The colour depth, which is the seventh field of the rectangle.
    let at = 4 + 12;
    body[at..at + 2].copy_from_slice(&16_u16.to_le_bytes());
    assert_eq!(
        update(&body).unwrap_err().to_string(),
        "an RDP Bitmap Update carries a colour depth 0x10, which this client does not accept"
    );
}

#[test]
fn a_rectangle_larger_than_the_bitmap_in_it_is_refused() {
    let body = pdu(&[plain(0, 0, (4, 1), (2, 1), &[0; 8])]);
    assert_eq!(
        update(&body).unwrap_err().to_string(),
        "an RDP Bitmap Update carries a rectangle larger than the bitmap in it 0x4, which \
         this client does not accept"
    );
}

#[test]
fn a_rectangle_that_ends_before_it_begins_is_refused() {
    let mut body = pdu(&[plain(8, 0, (1, 1), (1, 1), &[0; 4])]);
    // destRight, made smaller than destLeft.
    body[8..10].copy_from_slice(&4_u16.to_le_bytes());
    assert_eq!(
        update(&body).unwrap_err().to_string(),
        "an RDP Bitmap Update carries a rectangle that ends before it begins 0x4, which this \
         client does not accept"
    );
}

#[test]
fn an_update_that_is_not_a_bitmap_update_is_refused() {
    let mut body = pdu(&[plain(0, 0, (1, 1), (1, 1), &[0; 4])]);
    body[0] = 0x03;
    assert_eq!(
        update(&body).unwrap_err().to_string(),
        "an RDP Bitmap Update carries its update type 0x3, which this client does not accept"
    );
}
