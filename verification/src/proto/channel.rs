//! The header a static virtual channel's data wears inside an MCS Send Data.
//!
//! [`super::mcs`] addresses a payload to a channel; this is what sits at the front of
//! that payload on every channel but the I/O one. It is eight bytes, a length and a
//! set of flags, and it exists for one reason: an MCS Send Data is capped at what
//! PER's length field holds, and a channel PDU may be larger, so a long one is split
//! into chunks that each carry the whole PDU's length and say where in it they fall.
//!
//! The chunk size is the server's to choose. It announces one in the Virtual Channel
//! capability set, between [`MIN_CHUNK`] and [`MAX_CHUNK`], and a client that writes
//! a larger chunk than that is not answered: it is disconnected.
//!
//! # One chunk out, many in
//!
//! Everything this client sends on a virtual channel is a Display Control monitor
//! layout: a fixed sixty-four bytes, wrapped in a dynamic channel header of two or
//! three. Nothing it can send comes near [`MIN_CHUNK`], so [`pdu`] writes one chunk
//! and refuses a payload that would need a second, rather than carrying a splitter
//! that no call site reaches.
//!
//! Inbound is the other way round: what a server sends is its decision, so
//! [`Reassembly`] puts the pieces of any length back together.
//!
//! [MS-RDPBCGR] 2.2.6.1.

use vstd::prelude::*;

use super::wire::{cursor, le32, le32_at, numbers_read_back, Malformed, Reader, Step, Writer};
use crate::text;

verus! {

/// The smallest chunk a server may name, which is also what to assume when it names
/// none.
pub const MIN_CHUNK: usize = 1600;

/// The largest chunk a server may name.
pub const MAX_CHUNK: usize = 16_256;

/// The length and flags in front of every chunk.
pub const HEADER: usize = 8;

/// `CHANNEL_FLAG_FIRST`: this chunk starts a PDU.
pub const FIRST: u32 = 0x0000_0001;
/// `CHANNEL_FLAG_LAST`: this chunk ends one.
pub const LAST: u32 = 0x0000_0002;
/// `CHANNEL_PACKET_COMPRESSED`: the data is compressed, and the length is what it
/// will decompress to. The capability exchange asks for no compression in either
/// direction, so a server that sets this is refused rather than half-read.
pub const COMPRESSED: u32 = 0x0020_0000;

/// `CHANNEL_FLAG_SHOW_PROTOCOL`: the chunk's header is to reach the endpoint, which every
/// chunk of a channel that was opened with that option has to say.
pub const SHOW_PROTOCOL: u32 = 0x0000_0010;

pub const WHAT: &'static str = "a virtual channel PDU";

/// A payload longer than one chunk of the channel it was addressed to.
#[derive(Clone, Copy, Debug, PartialEq, Eq)]
pub struct TooLong {
    pub length: usize,
    pub chunk: usize,
}

impl TooLong {
    pub open spec fn text(self) -> Seq<char> {
        "a "@ + text::decimal(self.length as nat) + "-byte channel PDU does not fit the server's "@
            + text::decimal(self.chunk as nat) + "-byte chunk"@
    }

    pub fn to_string(&self) -> (s: String)
        ensures
            s@ == self.text(),
    {
        let mut s = String::new();
        s.append("a ");
        text::push_decimal(&mut s, self.length as u64);
        s.append("-byte channel PDU does not fit the server's ");
        text::push_decimal(&mut s, self.chunk as u64);
        s.append("-byte chunk");
        assert(s@ =~= self.text());
        s
    }
}

/// A chunk: the length of the whole PDU, where in it the chunk falls, and its bytes.
pub open spec fn chunk_bytes(total: u32, flags: u32, data: Seq<u8>) -> Seq<u8> {
    le32(total) + le32(flags) + data
}

/// One whole channel PDU, headed and ready for one MCS Send Data.
pub fn pdu(payload: &[u8], chunk: usize) -> (res: Result<Vec<u8>, TooLong>)
    requires
        payload@.len() <= chunk ==> payload@.len() <= u32::MAX,
    ensures
        match res {
            Ok(bytes) => payload@.len() <= chunk && bytes@ == chunk_bytes(
                payload@.len() as u32,
                FIRST | LAST,
                payload@,
            ),
            Err(e) => payload@.len() > chunk && e == (TooLong {
                length: payload@.len() as usize,
                chunk,
            }),
        },
{
    if payload.len() > chunk {
        return Err(TooLong { length: payload.len(), chunk });
    }
    let mut w = Writer::new();
    w.u32_le(payload.len() as u32);
    w.u32_le(FIRST | LAST);
    w.bytes(payload);
    assert(w@ =~= chunk_bytes(payload@.len() as u32, FIRST | LAST, payload@));
    Ok(w.finish())
}

/// The chunks of a channel PDU, put back together.
///
/// One of these belongs to each channel: the pieces of two PDUs never interleave on
/// one channel, and a second channel's chunks are a separate sequence.
#[derive(Debug)]
pub struct Reassembly {
    buffer: Vec<u8>,
    /// The length the PDU in progress announced, and the length it has to come to.
    expected: Option<u32>,
}

/// The PDU in progress, if there is one: the length it announced, and what has come.
pub struct ReassemblyView {
    pub open: Option<(u32, Seq<u8>)>,
}

impl View for Reassembly {
    type V = ReassemblyView;

    closed spec fn view(&self) -> ReassemblyView {
        ReassemblyView {
            open: match self.expected {
                Some(expected) => Some((expected, self.buffer@)),
                None => None,
            },
        }
    }
}

pub open spec fn refusal(field: &'static str, value: u64) -> Malformed {
    Malformed::Refused { what: WHAT, field, value }
}

pub open spec fn capped(n: nat) -> u64 {
    if n < u32::MAX { n as u64 } else { u32::MAX as u64 }
}

impl ReassemblyView {
    /// A sequence that went wrong cannot be continued: the chunks after it belong to a
    /// PDU whose start is gone.
    pub open spec fn abandoned() -> ReassemblyView {
        ReassemblyView { open: None }
    }

    /// A chunk that starts a PDU.
    pub open spec fn started(self, total: u32, flags: u32, data: Seq<u8>) -> (
        ReassemblyView,
        Result<Option<Seq<u8>>, Malformed>,
    ) {
        if self.open is Some {
            (
                Self::abandoned(),
                Err(refusal("a first chunk inside an unfinished PDU, whose flags are", flags as u64)),
            )
        } else if flags & LAST != 0 {
            if data.len() != total {
                (
                    Self::abandoned(),
                    Err(refusal("a whole PDU whose announced length is", total as u64)),
                )
            } else {
                (self, Ok(Some(data)))
            }
        } else {
            (ReassemblyView { open: Some((total, data)) }, Ok(None))
        }
    }

    /// A chunk that continues one.
    pub open spec fn continued(self, total: u32, flags: u32, data: Seq<u8>) -> (
        ReassemblyView,
        Result<Option<Seq<u8>>, Malformed>,
    ) {
        match self.open {
            None => (
                Self::abandoned(),
                Err(refusal("a chunk that continues nothing, whose flags are", flags as u64)),
            ),
            Some((expected, held)) => {
                let whole = held + data;
                if total != expected {
                    (
                        Self::abandoned(),
                        Err(refusal("a chunk announcing a different length,", total as u64)),
                    )
                } else if whole.len() > expected || (flags & LAST != 0 && whole.len() != expected) {
                    (Self::abandoned(), Err(refusal("chunks coming to", capped(whole.len()))))
                } else if flags & LAST != 0 {
                    (Self::abandoned(), Ok(Some(whole)))
                } else {
                    (ReassemblyView { open: Some((expected, whole)) }, Ok(None))
                }
            },
        }
    }

    /// What one chunk does: the PDU it completes, or what was wrong with it.
    pub open spec fn pushed(self, chunk: Seq<u8>) -> (
        ReassemblyView,
        Result<Option<Seq<u8>>, Malformed>,
    ) {
        match cursor(WHAT, chunk).u32_le() {
            Step::Stop(e) => (self, Err(e)),
            Step::Got(total, c) => match c.u32_le() {
                Step::Stop(e) => (self, Err(e)),
                Step::Got(flags, c) => if flags & COMPRESSED != 0 {
                    (
                        Self::abandoned(),
                        Err(refusal("compressed channel data, whose flags are", flags as u64)),
                    )
                } else if flags & FIRST != 0 {
                    self.started(total, flags, c.rest())
                } else {
                    self.continued(total, flags, c.rest())
                },
            },
        }
    }
}

/// Whether an outcome that borrows is the one wanted.
pub open spec fn completes(
    res: Result<Option<&[u8]>, Malformed>,
    want: Result<Option<Seq<u8>>, Malformed>,
) -> bool {
    match (res, want) {
        (Ok(Some(pdu)), Ok(Some(w))) => pdu@ == w,
        (Ok(None), Ok(None)) => true,
        (Err(e), Err(w)) => e == w,
        _ => false,
    }
}

impl Reassembly {
    pub fn new() -> (r: Reassembly)
        ensures
            r@ == ReassemblyView::abandoned(),
    {
        Reassembly { buffer: Vec::new(), expected: None }
    }

    /// Add one chunk, and hand back the PDU if this chunk completed it.
    ///
    /// A whole PDU borrows either the chunk, which is every PDU a Display Control
    /// session sees, or the buffer its chunks were gathered into.
    pub fn push<'a>(&'a mut self, chunk: &'a [u8]) -> (res: Result<Option<&'a [u8]>, Malformed>)
        ensures
            final(self)@ == old(self)@.pushed(chunk@).0,
            completes(res, old(self)@.pushed(chunk@).1),
    {
        let mut r = Reader::new(WHAT, chunk);
        let total = r.u32_le()?;
        let flags = r.u32_le()?;
        let data = r.rest();
        if flags & COMPRESSED != 0 {
            return Err(self.abandon("compressed channel data, whose flags are", flags as u64));
        }
        let (first, last) = (flags & FIRST != 0, flags & LAST != 0);
        if first {
            if self.expected.is_some() {
                let what = "a first chunk inside an unfinished PDU, whose flags are";
                return Err(self.abandon(what, flags as u64));
            }
            if last {
                if data.len() as u64 != total as u64 {
                    return Err(self.abandon("a whole PDU whose announced length is", total as u64));
                }
                return Ok(Some(data));
            }
            self.expected = Some(total);
            self.buffer.clear();
            self.buffer.extend_from_slice(data);
            assert(self.buffer@ =~= data@);
            return Ok(None);
        }
        let expected: u32 = match self.expected {
            Some(expected) => expected,
            None => {
                return Err(
                    self.abandon("a chunk that continues nothing, whose flags are", flags as u64),
                );
            },
        };
        if total != expected {
            return Err(self.abandon("a chunk announcing a different length,", total as u64));
        }
        self.buffer.extend_from_slice(data);
        assert(self.buffer@ =~= old(self).buffer@ + data@);
        let gathered: u64 = self.buffer.len() as u64;
        if gathered > expected as u64 || (last && gathered != expected as u64) {
            let said: u64 = if gathered < u32::MAX as u64 { gathered } else { u32::MAX as u64 };
            return Err(self.abandon("chunks coming to", said));
        }
        if !last {
            return Ok(None);
        }
        self.expected = None;
        Ok(Some(self.buffer.as_slice()))
    }

    /// Forget what was being reassembled, and say why it was given up on.
    fn abandon(&mut self, field: &'static str, value: u64) -> (e: Malformed)
        ensures
            final(self)@ == ReassemblyView::abandoned(),
            e == refusal(field, value),
    {
        self.buffer.clear();
        self.expected = None;
        Malformed::Refused { what: WHAT, field, value }
    }
}

/// What the flags of a chunk say, for each chunk a PDU can be cut into.
proof fn flags_say_where_a_chunk_falls()
    ensures
        (FIRST | LAST) & FIRST != 0,
        (FIRST | LAST) & LAST != 0,
        (FIRST | LAST) & COMPRESSED == 0,
        FIRST & FIRST != 0,
        FIRST & LAST == 0,
        FIRST & COMPRESSED == 0,
        LAST & FIRST == 0,
        LAST & LAST != 0,
        LAST & COMPRESSED == 0,
        0u32 & FIRST == 0,
        0u32 & LAST == 0,
        0u32 & COMPRESSED == 0,
{
    assert((1u32 | 2u32) & 1u32 != 0 && (1u32 | 2u32) & 2u32 != 0 && (1u32 | 2u32) & 0x0020_0000u32 == 0
        && 1u32 & 1u32 != 0 && 1u32 & 2u32 == 0 && 1u32 & 0x0020_0000u32 == 0 && 2u32 & 1u32 == 0
        && 2u32 & 2u32 != 0 && 2u32 & 0x0020_0000u32 == 0 && 0u32 & 1u32 == 0 && 0u32 & 2u32 == 0
        && 0u32 & 0x0020_0000u32 == 0) by (bit_vector);
}

/// A chunk's header reads back as it was written.
proof fn a_chunk_reads_back(s: ReassemblyView, total: u32, flags: u32, data: Seq<u8>)
    requires
        flags & COMPRESSED == 0,
    ensures
        s.pushed(chunk_bytes(total, flags, data)) == (if flags & FIRST != 0 {
            s.started(total, flags, data)
        } else {
            s.continued(total, flags, data)
        }),
{
    let chunk = chunk_bytes(total, flags, data);
    numbers_read_back(seq![], le32(flags) + data, 0, total);
    numbers_read_back(le32(total), data, 0, flags);
    assert(seq![] + le32(total) + (le32(flags) + data) =~= chunk);
    assert(le32_at(chunk, 0) == total && le32_at(chunk, 4) == flags);
    assert(chunk.subrange(8, chunk.len() as int) =~= data);
}

/// A PDU written as one chunk comes back from a channel with nothing in progress, which
/// is left with nothing in progress.
pub proof fn a_pdu_arrives_whole(payload: Seq<u8>)
    requires
        payload.len() <= u32::MAX,
    ensures
        ReassemblyView::abandoned().pushed(
            chunk_bytes(payload.len() as u32, FIRST | LAST, payload),
        ) == (
            ReassemblyView::abandoned(),
            Ok::<Option<Seq<u8>>, Malformed>(Some(payload)),
        ),
{
    flags_say_where_a_chunk_falls();
    a_chunk_reads_back(
        ReassemblyView::abandoned(),
        payload.len() as u32,
        FIRST | LAST,
        payload,
    );
}

/// The chunks of a PDU in between its first and its last.
pub open spec fn between(s: ReassemblyView, total: u32, parts: Seq<Seq<u8>>) -> ReassemblyView
    decreases parts.len(),
{
    if parts.len() == 0 {
        s
    } else {
        between(s, total, parts.drop_last()).pushed(chunk_bytes(total, 0, parts.last())).0
    }
}

/// Runs of bytes, one after another.
pub open spec fn joined(parts: Seq<Seq<u8>>) -> Seq<u8>
    decreases parts.len(),
{
    if parts.len() == 0 { seq![] } else { joined(parts.drop_last()) + parts.last() }
}

proof fn gathering(s: ReassemblyView, total: u32, held: Seq<u8>, parts: Seq<Seq<u8>>)
    requires
        s.open == Some((total, held)),
        (held + joined(parts)).len() <= total,
    ensures
        between(s, total, parts).open == Some((total, held + joined(parts))),
    decreases parts.len(),
{
    if parts.len() > 0 {
        gathering(s, total, held, parts.drop_last());
        flags_say_where_a_chunk_falls();
        a_chunk_reads_back(between(s, total, parts.drop_last()), total, 0, parts.last());
        assert(held + joined(parts.drop_last()) + parts.last() =~= held + joined(parts));
    } else {
        assert(held + joined(parts) =~= held);
    }
}

/// A PDU cut into a first chunk, any number in between and a last one comes back whole,
/// and the channel is ready for the next.
pub proof fn a_cut_pdu_arrives_whole(first: Seq<u8>, parts: Seq<Seq<u8>>, last: Seq<u8>)
    requires
        (first + joined(parts) + last).len() <= u32::MAX,
    ensures
        ({
            let whole = first + joined(parts) + last;
            let total = whole.len() as u32;
            let begun = ReassemblyView::abandoned().pushed(chunk_bytes(total, FIRST, first)).0;
            between(begun, total, parts).pushed(chunk_bytes(total, LAST, last)) == (
                ReassemblyView::abandoned(),
                Ok::<Option<Seq<u8>>, Malformed>(Some(whole)),
            )
        }),
{
    let whole = first + joined(parts) + last;
    let total = whole.len() as u32;
    flags_say_where_a_chunk_falls();
    a_chunk_reads_back(ReassemblyView::abandoned(), total, FIRST, first);
    let begun = ReassemblyView::abandoned().pushed(chunk_bytes(total, FIRST, first)).0;
    gathering(begun, total, first, parts);
    a_chunk_reads_back(between(begun, total, parts), total, LAST, last);
}

/// A chunk that is refused for more than its header being cut short gives up the PDU it
/// belonged to: whatever comes next has to start one.
pub proof fn a_refused_chunk_gives_its_pdu_up(s: ReassemblyView, chunk: Seq<u8>)
    requires
        chunk.len() >= 8,
        s.pushed(chunk).1 is Err,
    ensures
        s.pushed(chunk).0 == ReassemblyView::abandoned(),
{
}

} // verus!
