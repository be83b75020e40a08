//! The graphics pipeline's H.264 payloads: what wraps a bitstream on the wire.
//!
//! A `WireToSurface1` in the AVC420 codec carries an `RFX_AVC420_BITMAP_STREAM`: a
//! metablock naming the rectangles of the surface the picture is to be shown in, each with
//! the quantization the host encoded it at, and then one H.264 access unit in Annex B
//! byte-stream form, whose picture is the whole surface rounded up to macroblocks. The
//! rectangles are the region mask: the picture outside them is whatever the encoder left
//! there and is not shown.
//!
//! The AVC444 codecs wrap two of those, a *luma* subframe and a *chroma* subframe, behind
//! one word saying which are present and how long the first is; both go through one H.264
//! decoder as one stream. What the two views hold and how they are put back together is
//! [`crate::avc`]'s business, not the wire's.
//!
//! MS-RDPEGFX 2.2.4.4, 2.2.4.5 and 2.2.4.6.

use vstd::prelude::*;

use super::gfx::{read_rects, rectangles_read_back, rects_bytes, rects_step, Rect16};
use super::wire::{byte_next, bytes_next, cursor, front_faces, le32, long_next, views, Cursor, Malformed, Reader, Step};

verus! {

pub const WHAT: &'static str = "an AVC420 bitmap stream";
pub const WHAT_444: &'static str = "an AVC444 bitmap stream";

/// `RFX_AVC420_METABLOCK` holds an `RDPGFX_RECT16` and an `RDPGFX_AVC420_QUANT_QUALITY`
/// per rectangle.
pub const REGION_BYTES: u64 = 8 + 2;

/// One rectangle of the region mask and what the host says about it.
///
/// The quantization is informational: MS-RDPEGFX 2.2.4.4.1 says the decoder is not to use
/// it, and the H.264 stream carries its own. So it is read and kept for the record and
/// nothing else.
#[derive(Clone, Copy, Debug, PartialEq, Eq)]
pub struct Region {
    /// In surface coordinates, exclusive right and bottom.
    pub rect: Rect16,
    /// The quantization parameter, six bits.
    pub qp: u8,
    /// Whether the rectangle was progressively encoded.
    pub progressive: bool,
    /// The quality level, 0 to 100.
    pub quality: u8,
}

/// `RFX_AVC420_BITMAP_STREAM`: the region mask and the access unit it masks.
#[derive(Clone, Debug, PartialEq, Eq)]
pub struct Avc420<'a> {
    pub regions: Vec<Region>,
    /// One access unit, Annex B.
    pub bitstream: &'a [u8],
}

/// An [`Avc420`] by its contents.
pub struct Avc420View {
    pub regions: Seq<Region>,
    pub bitstream: Seq<u8>,
}

impl<'a> View for Avc420<'a> {
    type V = Avc420View;

    open spec fn view(&self) -> Avc420View {
        Avc420View { regions: self.regions@, bitstream: self.bitstream@ }
    }
}

/// `RFX_AVC444_BITMAP_STREAM` and `RFX_AVC444V2_BITMAP_STREAM`, which are the same on the
/// wire: which of the two views this PDU carries. At least one is present; the `LC` value
/// that would have neither is refused.
#[derive(Clone, Debug, PartialEq, Eq)]
pub struct Avc444<'a> {
    /// The YUV420 view: the picture's luma and half its chroma.
    pub luma: Option<Avc420<'a>>,
    /// The Chroma420 view: the other half of the chroma, packed into a YUV420 picture of
    /// its own.
    pub chroma: Option<Avc420<'a>>,
}

/// An [`Avc444`] by its contents.
pub struct Avc444View {
    pub luma: Option<Avc420View>,
    pub chroma: Option<Avc420View>,
}

/// A stream that may not be there, by its contents.
pub open spec fn present(stream: Option<Avc420<'_>>) -> Option<Avc420View> {
    match stream {
        Some(stream) => Some(stream@),
        None => None,
    }
}

impl<'a> View for Avc444<'a> {
    type V = Avc444View;

    open spec fn view(&self) -> Avc444View {
        Avc444View { luma: present(self.luma), chroma: present(self.chroma) }
    }
}

/// The quantization and quality of each rectangle, after those already got.
pub open spec fn regions_step(c: Cursor, rects: Seq<Rect16>, got: Seq<Region>) -> Step<Seq<Region>>
    decreases rects.len() - got.len(),
{
    if got.len() >= rects.len() {
        Step::Got(got, c)
    } else {
        match c.u8() {
            Step::Stop(e) => Step::Stop(e),
            Step::Got(qp, c) => match c.u8() {
                Step::Stop(e) => Step::Stop(e),
                Step::Got(quality, c) => regions_step(
                    c,
                    rects,
                    got.push(
                        Region {
                            rect: rects[got.len() as int],
                            qp: (qp % 0x40) as u8,
                            progressive: qp >= 0x80,
                            quality,
                        },
                    ),
                ),
            },
        }
    }
}

/// What an `RFX_AVC420_BITMAP_STREAM` says.
pub open spec fn avc420_spec(data: Seq<u8>) -> Result<Avc420View, Malformed> {
    match cursor(WHAT, data).u32_le() {
        Step::Stop(e) => Err(e),
        Step::Got(count, c) => if count * REGION_BYTES > c.left() {
            Err(c.refused("more region rectangles than the block has bytes for,", count as u64))
        } else {
            match rects_step(c, count as nat, seq![]) {
                Step::Stop(e) => Err(e),
                Step::Got(rects, c) => match regions_step(c, rects, seq![]) {
                    Step::Stop(e) => Err(e),
                    Step::Got(regions, c) => Ok(Avc420View { regions, bitstream: c.rest() }),
                },
            }
        },
    }
}

/// Read an `RFX_AVC420_BITMAP_STREAM`.
pub fn avc420(data: &[u8]) -> (res: Result<Avc420<'_>, Malformed>)
    ensures
        views(res, avc420_spec(data@)),
{
    let mut r = Reader::new(WHAT, data);
    let count = r.u32_le()?;
    // Each region is ten bytes of metablock, so a count the block has no bytes for is
    // refused before anything is allocated for it.
    if count as u64 * REGION_BYTES > r.rest().len() as u64 {
        return Err(r.refuse("more region rectangles than the block has bytes for,", count as u64));
    }
    let rects = read_rects(&mut r, count)?;
    let regions = read_regions(&mut r, &rects)?;
    Ok(Avc420 { regions, bitstream: r.rest() })
}

fn read_regions(r: &mut Reader<'_>, rects: &Vec<Rect16>) -> (res: Result<Vec<Region>, Malformed>)
    requires
        old(r)@.within(),
    ensures
        match regions_step(old(r)@, rects@, seq![]) {
            Step::Got(regions, after) => match res {
                Ok(got) => got@ == regions && final(r)@ == after,
                Err(_) => false,
            },
            Step::Stop(e) => res == Err::<Vec<Region>, Malformed>(e),
        },
        final(r)@.within(),
        final(r)@.bytes == old(r)@.bytes,
        final(r)@.what == old(r)@.what,
{
    let mut regions: Vec<Region> = Vec::new();
    assert(regions@ =~= seq![]);
    for i in 0..rects.len()
        invariant
            regions@.len() == i,
            r@.within(),
            r@.bytes == old(r)@.bytes,
            r@.what == old(r)@.what,
            regions_step(old(r)@, rects@, seq![]) == regions_step(r@, rects@, regions@),
    {
        let qp = r.u8()?;
        let quality = r.u8()?;
        regions.push(Region { rect: rects[i], qp: qp % 0x40, progressive: qp >= 0x80, quality });
    }
    Ok(regions)
}

/// What an `RFX_AVC444_BITMAP_STREAM` says. Its first word holds the length of the first
/// stream in thirty bits and `LC` in the two above them.
pub open spec fn avc444_spec(data: Seq<u8>) -> Result<Avc444View, Malformed> {
    match cursor(WHAT_444, data).u32_le() {
        Step::Stop(e) => Err(e),
        Step::Got(info, c) => if info / 0x4000_0000 == 0 {
            match c.bytes(info as int) {
                Step::Stop(e) => Err(e),
                Step::Got(first, c) => match avc420_spec(first) {
                    Err(e) => Err(e),
                    Ok(luma) => match avc420_spec(c.rest()) {
                        Err(e) => Err(e),
                        Ok(chroma) => Ok(Avc444View { luma: Some(luma), chroma: Some(chroma) }),
                    },
                },
            }
        } else if info / 0x4000_0000 == 1 {
            match avc420_spec(c.rest()) {
                Err(e) => Err(e),
                Ok(luma) => Ok(Avc444View { luma: Some(luma), chroma: None }),
            }
        } else if info / 0x4000_0000 == 2 {
            match avc420_spec(c.rest()) {
                Err(e) => Err(e),
                Ok(chroma) => Ok(Avc444View { luma: None, chroma: Some(chroma) }),
            }
        } else {
            Err(c.refused("LC", 3))
        },
    }
}

/// Read an `RFX_AVC444_BITMAP_STREAM` or `RFX_AVC444V2_BITMAP_STREAM`.
///
/// `cbAvc420EncodedBitstream1` sizes the first stream only when both are present; with one
/// view the rest of the PDU is that view, whatever the count says, since the count is zero
/// for a lone chroma view and nothing is said about a lone luma one.
pub fn avc444(data: &[u8]) -> (res: Result<Avc444<'_>, Malformed>)
    ensures
        views(res, avc444_spec(data@)),
{
    let mut r = Reader::new(WHAT_444, data);
    let info = r.u32_le()?;
    match info / 0x4000_0000 {
        0 => {
            let luma = avc420(r.bytes(info as usize)?)?;
            let chroma = avc420(r.rest())?;
            Ok(Avc444 { luma: Some(luma), chroma: Some(chroma) })
        },
        1 => Ok(Avc444 { luma: Some(avc420(r.rest())?), chroma: None }),
        2 => Ok(Avc444 { luma: None, chroma: Some(avc420(r.rest())?) }),
        lc => Err(r.refuse("LC", lc as u64)),
    }
}

/// A stream that is read names as many rectangles as its first word says.
pub proof fn a_stream_names_the_rectangles_it_counts(data: Seq<u8>)
    requires
        avc420_spec(data) is Ok,
    ensures
        cursor(WHAT, data).u32_le() is Got,
        avc420_spec(data)->Ok_0.regions.len() == cursor(WHAT, data).u32_le()->Got_0,
{
    match cursor(WHAT, data).u32_le() {
        Step::Stop(_) => {},
        Step::Got(count, c) => {
            rects_counted(c, count as nat, seq![]);
            match rects_step(c, count as nat, seq![]) {
                Step::Stop(_) => {},
                Step::Got(rects, c) => regions_counted(c, rects, seq![]),
            }
        },
    }
}

proof fn rects_counted(c: Cursor, n: nat, got: Seq<Rect16>)
    ensures
        match rects_step(c, n, got) {
            Step::Got(rects, _) => rects.len() == got.len() + n,
            Step::Stop(_) => true,
        },
    decreases n,
{
    if n > 0 {
        match super::gfx::rect_step(c) {
            Step::Stop(_) => {},
            Step::Got(rect, c) => rects_counted(c, (n - 1) as nat, got.push(rect)),
        }
    }
}

proof fn regions_counted(c: Cursor, rects: Seq<Rect16>, got: Seq<Region>)
    requires
        got.len() <= rects.len(),
    ensures
        match regions_step(c, rects, got) {
            Step::Got(regions, _) => regions.len() == rects.len(),
            Step::Stop(_) => true,
        },
    decreases rects.len() - got.len(),
{
    if got.len() < rects.len() {
        match c.u8() {
            Step::Stop(_) => {},
            Step::Got(qp, c) => match c.u8() {
                Step::Stop(_) => {},
                Step::Got(quality, c) => regions_counted(
                    c,
                    rects,
                    got.push(
                        Region {
                            rect: rects[got.len() as int],
                            qp: (qp % 0x40) as u8,
                            progressive: qp >= 0x80,
                            quality,
                        },
                    ),
                ),
            },
        }
    }
}

/// How each of a stream's regions was coded, as it is sent: its quantization, with the top bit
/// for whether it is progressive, and then its quality.
pub open spec fn qualities_bytes(regions: Seq<Region>) -> Seq<u8>
    decreases regions.len(),
{
    if regions.len() == 0 {
        seq![]
    } else {
        let first = regions[0];
        seq![(if first.progressive { 128 + first.qp } else { first.qp as int }) as u8] + (seq![first.quality]
            + qualities_bytes(regions.skip(1)))
    }
}

/// The rectangles of a stream's regions.
pub open spec fn rects_of(regions: Seq<Region>) -> Seq<Rect16> {
    regions.map_values(|r: Region| r.rect)
}

/// A stream as it is sent: how many regions it has, all their rectangles, how each was coded,
/// and the bitstream.
#[verifier::opaque]
pub open spec fn stream_bytes(stream: Avc420View) -> Seq<u8> {
    le32(stream.regions.len() as u32) + (rects_bytes(rects_of(stream.regions)) + (qualities_bytes(stream.regions)
        + stream.bitstream))
}

pub open spec fn is_sendable(stream: Avc420View) -> bool {
    &&& stream.regions.len() <= 0xFFFF_FFFF
    &&& forall|i: int|
        0 <= i < stream.regions.len() ==> (#[trigger] stream.regions[i]).qp < 64 && stream.regions[i].rect.left
            < stream.regions[i].rect.right && stream.regions[i].rect.top < stream.regions[i].rect.bottom
}

proof fn qualities_read_back(c: Cursor, all: Seq<Region>, n: nat, rest: Seq<u8>)
    requires
        n <= all.len(),
        forall|i: int| 0 <= i < all.len() ==> (#[trigger] all[i]).qp < 64,
        c.faces(qualities_bytes(all.skip(n as int)) + rest),
    ensures
        regions_step(c, rects_of(all), all.take(n as int)) == Step::Got(all, c.plus(2 * (all.len() - n))),
        c.plus(2 * (all.len() - n)).faces(rest),
    decreases all.len() - n,
{
    let left = all.skip(n as int);
    if n == all.len() {
        assert(all.take(n as int) =~= all);
        assert(qualities_bytes(left) + rest =~= rest);
    } else {
        let r = all[n as int];
        assert(left[0] == r);
        assert(left.skip(1) =~= all.skip(n as int + 1));
        let more = qualities_bytes(all.skip(n as int + 1)) + rest;
        let qp = (if r.progressive { 128 + r.qp } else { r.qp as int }) as u8;
        assert(qualities_bytes(left) + rest =~= seq![qp] + (seq![r.quality] + more));
        byte_next(c, qp, seq![r.quality] + more);
        byte_next(c.plus(1), r.quality, more);
        assert(all.take(n as int).push(r) =~= all.take(n as int + 1));
        assert(c.plus(1).plus(1) == c.plus(2));
        qualities_read_back(c.plus(2), all, n + 1, rest);
        assert(c.plus(2).plus(2 * (all.len() - n - 1)) == c.plus(2 * (all.len() - n)));
    }
}

proof fn bytes_are_counted(regions: Seq<Region>)
    ensures
        rects_bytes(rects_of(regions)).len() == 8 * regions.len(),
        qualities_bytes(regions).len() == 2 * regions.len(),
    decreases regions.len(),
{
    if regions.len() > 0 {
        bytes_are_counted(regions.skip(1));
        assert(rects_of(regions).skip(1) =~= rects_of(regions.skip(1)));
    }
}

/// A stream reads back as it was sent.
pub proof fn a_stream_reads_back(stream: Avc420View)
    requires
        is_sendable(stream),
    ensures
        avc420_spec(stream_bytes(stream)) == Ok::<Avc420View, Malformed>(stream),
{
    let data = stream_bytes(stream);
    front_faces(WHAT, data);
    let c = cursor(WHAT, data);
    a_stream_is_read(c, stream);
    bytes_are_counted(stream.regions);
    let n = stream.regions.len() as int;
    assert(data.len() == 4 + 10 * n + stream.bitstream.len()) by {
        reveal(stream_bytes);
    }
    let end = c.plus(4).plus(8 * n).plus(2 * n);
    assert(end.rest() =~= stream.bitstream);
}

proof fn a_stream_is_read(c: Cursor, stream: Avc420View)
    requires
        is_sendable(stream),
        c.faces(stream_bytes(stream)),
    ensures
        c.u32_le() == Step::Got(stream.regions.len() as u32, c.plus(4)),
        rects_step(c.plus(4), stream.regions.len(), seq![]) == Step::Got(
            rects_of(stream.regions),
            c.plus(4).plus(8 * stream.regions.len() as int),
        ),
        regions_step(c.plus(4).plus(8 * stream.regions.len() as int), rects_of(stream.regions), seq![]) == Step::Got(
            stream.regions,
            c.plus(4).plus(8 * stream.regions.len() as int).plus(2 * stream.regions.len() as int),
        ),
        c.plus(4).plus(8 * stream.regions.len() as int).plus(2 * stream.regions.len() as int).faces(stream.bitstream),
{
    reveal(stream_bytes);
    let (regions, rects) = (stream.regions, rects_of(stream.regions));
    let tail = qualities_bytes(regions) + stream.bitstream;
    let n = regions.len();
    long_next(c, n as u32, rects_bytes(rects) + tail);
    let d = c.plus(4);
    assert forall|i: int| 0 <= i < rects.len() implies (#[trigger] rects[i]).left < rects[i].right && rects[i].top
        < rects[i].bottom by {
        assert(rects[i] == regions[i].rect);
    }
    rectangles_read_back(d, rects, seq![], tail);
    assert(seq![] + rects =~= rects);
    let e = d.plus(8 * n as int);
    assert(regions.skip(0) =~= regions);
    assert(regions.take(0) =~= seq![]);
    qualities_read_back(e, regions, 0, stream.bitstream);
}

/// Two views sent together read back as they were sent: the first word says how long the first
/// one is.
pub proof fn two_views_read_back(luma: Avc420View, chroma: Avc420View)
    requires
        is_sendable(luma),
        is_sendable(chroma),
        stream_bytes(luma).len() < 0x4000_0000,
    ensures
        avc444_spec(le32(stream_bytes(luma).len() as u32) + (stream_bytes(luma) + stream_bytes(chroma))) == Ok::<
            Avc444View,
            Malformed,
        >(Avc444View { luma: Some(luma), chroma: Some(chroma) }),
{
    a_stream_reads_back(luma);
    a_stream_reads_back(chroma);
    let (one, other) = (stream_bytes(luma), stream_bytes(chroma));
    two_parts(one, other);
}

proof fn two_parts(one: Seq<u8>, other: Seq<u8>)
    requires
        one.len() < 0x4000_0000,
    ensures
        ({
            let c = cursor(WHAT_444, le32(one.len() as u32) + (one + other));
            &&& c.u32_le() == Step::Got(one.len() as u32, c.plus(4))
            &&& c.plus(4).bytes(one.len() as int) == Step::Got(one, c.plus(4).plus(one.len() as int))
            &&& c.plus(4).plus(one.len() as int).rest() == other
        }),
{
    let n = one.len() as u32;
    let c = cursor(WHAT_444, le32(n) + (one + other));
    what_follows_a_word(n, one + other);
    bytes_next(c.plus(4), one, other);
    assert(c.plus(4).plus(one.len() as int).rest() =~= other);
}

/// One view sent alone reads back as it was sent: the top of the first word says which it is, and
/// the rest of it says nothing.
pub proof fn one_view_reads_back(stream: Avc420View, size: u32)
    requires
        is_sendable(stream),
        size < 0x4000_0000,
    ensures
        avc444_spec(le32((0x4000_0000 + size) as u32) + stream_bytes(stream)) == Ok::<Avc444View, Malformed>(
            Avc444View { luma: Some(stream), chroma: None },
        ),
        avc444_spec(le32((0x8000_0000 + size) as u32) + stream_bytes(stream)) == Ok::<Avc444View, Malformed>(
            Avc444View { luma: None, chroma: Some(stream) },
        ),
{
    a_stream_reads_back(stream);
    a_lone_view(1, size, stream_bytes(stream));
    a_lone_view(2, size, stream_bytes(stream));
}

proof fn a_lone_view(top: u32, size: u32, data: Seq<u8>)
    requires
        top == 1 || top == 2,
        size < 0x4000_0000,
    ensures
        ({
            let word = (0x4000_0000 * top + size) as u32;
            avc444_spec(le32(word) + data) == match avc420_spec(data) {
                Err(e) => Err(e),
                Ok(stream) => if top == 1 {
                    Ok(Avc444View { luma: Some(stream), chroma: None })
                } else {
                    Ok(Avc444View { luma: None, chroma: Some(stream) })
                },
            }
        }),
{
    let word = (0x4000_0000 * top + size) as u32;
    what_follows_a_word(word, data);
    assert(word / 0x4000_0000 == top);
}

proof fn what_follows_a_word(word: u32, rest: Seq<u8>)
    ensures
        ({
            let c = cursor(WHAT_444, le32(word) + rest);
            &&& c.u32_le() == Step::Got(word, c.plus(4))
            &&& c.plus(4).faces(rest)
            &&& c.plus(4).rest() == rest
        }),
{
    let c = cursor(WHAT_444, le32(word) + rest);
    front_faces(WHAT_444, le32(word) + rest);
    long_next(c, word, rest);
    assert(c.plus(4).rest() =~= rest);
}

} // verus!
