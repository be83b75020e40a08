//! The remote mouse cursor, as a caller sees it.
//!
//! [`crate::proto::pointer`] does the decoding: the AND and XOR masks Windows has used
//! since it drew cursors by XORing into the framebuffer, turned into straight-alpha
//! `RGBA`. This is the shape that leaves this crate: the same pixels, counted in 32 bits
//! like every other size a caller is handed, and never drawn into the desktop, which is
//! what lets it be worn on a hardware cursor.

use vstd::prelude::*;
use vstd::std_specs::convert::FromSpecImpl;

use crate::proto::pointer::Shape;
use crate::text::{decimal, push_decimal};

verus! {

/// A cursor bitmap, in straight-alpha `RGBA`.
#[derive(Clone, Debug, PartialEq, Eq)]
pub struct CursorImage {
    pub width: u32,
    pub height: u32,
    /// Where the click actually lands, relative to the top left of the image.
    pub hotspot_x: u32,
    pub hotspot_y: u32,
    /// `width * height * 4` bytes: R, G, B, A.
    pub rgba: Vec<u8>,
}

/// A decoded shape, which the decoder has already bounded to RDP's own 384x384 and sized
/// to its own dimensions, so there is nothing left to check here.
impl From<Shape> for CursorImage {
    fn from(shape: Shape) -> (image: CursorImage) {
        CursorImage {
            width: shape.width as u32,
            height: shape.height as u32,
            hotspot_x: shape.hotspot_x as u32,
            hotspot_y: shape.hotspot_y as u32,
            rgba: shape.rgba,
        }
    }
}

impl FromSpecImpl<Shape> for CursorImage {
    open spec fn obeys_from_spec() -> bool {
        true
    }

    open spec fn from_spec(shape: Shape) -> CursorImage {
        CursorImage {
            width: shape.width as u32,
            height: shape.height as u32,
            hotspot_x: shape.hotspot_x as u32,
            hotspot_y: shape.hotspot_y as u32,
            rgba: shape.rgba,
        }
    }
}

impl CursorImage {
    pub open spec fn text(self) -> Seq<char> {
        "CursorImage { "@ + decimal(self.width as nat) + "x"@ + decimal(self.height as nat) + ", hotspot "@
            + decimal(self.hotspot_x as nat) + ","@ + decimal(self.hotspot_y as nat) + ", "@ + decimal(
            self.rgba@.len(),
        ) + " bytes }"@
    }

    /// The image in words: the size and hotspot are what a reader wants, and the pixels
    /// are not. Every byte of a 384x384 cursor would be about 2.3 MB of comma-separated
    /// integers, enough to make the one line somebody needed unfindable.
    pub fn to_string(&self) -> (s: String)
        ensures
            s@ == self.text(),
    {
        let mut s = String::new();
        s.append("CursorImage { ");
        push_decimal(&mut s, self.width as u64);
        s.append("x");
        push_decimal(&mut s, self.height as u64);
        s.append(", hotspot ");
        push_decimal(&mut s, self.hotspot_x as u64);
        s.append(",");
        push_decimal(&mut s, self.hotspot_y as u64);
        s.append(", ");
        push_decimal(&mut s, self.rgba.len() as u64);
        s.append(" bytes }");
        assert(s@ =~= self.text());
        s
    }
}

/// What the pointer should look like now.
#[derive(Clone, Debug, PartialEq, Eq)]
pub enum Cursor {
    /// The server asked for no cursor at all: a full-screen video player, say.
    Hidden,
    /// The server asked for the system default arrow, without sending a bitmap for it.
    /// There is nothing to draw here; show whatever the local platform calls a default
    /// pointer.
    Default,
    /// A bitmap.
    Image(CursorImage),
}

} // verus!
