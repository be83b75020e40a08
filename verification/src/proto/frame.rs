//! One whole frame off the socket, of whichever framing it happens to wear.
//!
//! A live RDP connection carries two: the TPKT frames of [`super::x224`], which
//! everything the client sends and everything but an update travels in, and the
//! fast-path frames of [`super::fastpath`], which the server's updates use because
//! they cost four bytes fewer. They are told apart by the first byte and share a
//! socket, so reading one means reading whichever arrives.
//!
//! Neither framing is self-delimiting on the socket: a read returns whatever the
//! kernel had, which is half a frame as readily as three. [`Frames`] is the buffer
//! that turns that back into PDUs: what a read brought is [`Frames::fill`]ed in, and
//! [`Frames::take`] hands out a frame once one is whole. Every byte stays in the buffer
//! until then, so a caller that gives up on a half-arrived frame loses nothing but the
//! wait.

use vstd::prelude::*;
use vstd::slice::slice_subrange;

use super::wire::{copy, Malformed};
use super::{fastpath, x224};

verus! {

/// How much room to have free before asking the socket for more. Large enough that a
/// full-screen bitmap update is a handful of reads rather than a hundred.
pub const READ: usize = 0x1_0000;

/// How long the frame at the front of some bytes is, or `None` while too little of its
/// header has arrived to say.
pub open spec fn length_spec(buffer: Seq<u8>) -> Result<Option<usize>, Malformed> {
    if buffer.len() == 0 {
        Ok(None)
    } else if buffer[0] & fastpath::ACTION == fastpath::ACTION_FASTPATH {
        fastpath::frame_length_spec(buffer)
    } else if buffer.len() < x224::TPKT_HEADER {
        Ok(None)
    } else {
        match x224::frame_length_spec(buffer.take(4)) {
            Ok(length) => Ok(Some(length)),
            Err(e) => Err(e),
        }
    }
}

/// The frame at the front of some bytes, if it is all there.
pub open spec fn first_frame(buffer: Seq<u8>) -> Result<Option<Seq<u8>>, Malformed> {
    match length_spec(buffer) {
        Err(e) => Err(e),
        Ok(None) => Ok(None),
        Ok(Some(length)) => if buffer.len() < length { Ok(None) } else { Ok(Some(buffer.take(length as int))) },
    }
}

/// The frames arriving on one connection.
pub struct Frames {
    /// What has arrived and not yet been handed out: at most one whole frame and
    /// whatever came after it in the same read.
    buffer: Vec<u8>,
}

impl View for Frames {
    type V = Seq<u8>;

    closed spec fn view(&self) -> Seq<u8> {
        self.buffer@
    }
}

impl Frames {
    pub fn new() -> (f: Frames)
        ensures
            f@ == Seq::<u8>::empty(),
    {
        Frames { buffer: Vec::with_capacity(READ) }
    }

    /// What a read brought.
    pub fn fill(&mut self, read: &[u8])
        ensures
            final(self)@ == old(self)@ + read@,
    {
        self.buffer.extend_from_slice(read);
        assert(self@ =~= old(self)@ + read@);
    }

    /// How long the frame at the front of the buffer is, or `None` while too little
    /// of its header has arrived to say.
    fn length(&self) -> (res: Result<Option<usize>, Malformed>)
        ensures
            res == length_spec(self@),
            res matches Ok(Some(n)) ==> n >= 2,
    {
        if self.buffer.len() == 0 {
            return Ok(None);
        }
        if fastpath::is_output(self.buffer[0]) {
            return fastpath::frame_length(self.buffer.as_slice());
        }
        if self.buffer.len() < x224::TPKT_HEADER {
            return Ok(None);
        }
        let header = [self.buffer[0], self.buffer[1], self.buffer[2], self.buffer[3]];
        assert(header@ =~= self@.take(4));
        let length: usize = x224::frame_length(&header)?;
        Ok(Some(length))
    }

    /// Hand out the frame at the front once it is whole. `None` says to read more.
    ///
    /// The frame is copied out rather than borrowed so that the caller can go on to
    /// use the connection, a frame being answered as often as not, while it reads it.
    pub fn take(&mut self) -> (res: Result<Option<Vec<u8>>, Malformed>)
        ensures
            match (res, first_frame(old(self)@)) {
                (Ok(Some(frame)), Ok(Some(want))) => {
                    &&& frame@ == want
                    &&& frame@.len() > 0
                    &&& frame@ + final(self)@ == old(self)@
                },
                (Ok(None), Ok(None)) => final(self)@ == old(self)@,
                (Err(e), Err(want)) => e == want && final(self)@ == old(self)@,
                _ => false,
            },
    {
        match self.length()? {
            None => Ok(None),
            Some(length) => {
                if self.buffer.len() < length {
                    return Ok(None);
                }
                let frame = copy(slice_subrange(self.buffer.as_slice(), 0, length));
                let rest = copy(slice_subrange(self.buffer.as_slice(), length, self.buffer.len()));
                self.buffer = rest;
                assert(frame@ =~= old(self)@.take(length as int));
                assert(frame@ + self@ =~= old(self)@);
                Ok(Some(frame))
            },
        }
    }
}

/// A frame that has arrived whole is the same frame whatever has come after it, and a
/// frame that is bad stays bad.
pub proof fn what_follows_a_frame_changes_nothing(buffer: Seq<u8>, more: Seq<u8>)
    ensures
        match first_frame(buffer) {
            Ok(Some(frame)) => first_frame(buffer + more) == Ok::<Option<Seq<u8>>, Malformed>(Some(frame)),
            Ok(None) => true,
            Err(e) => first_frame(buffer + more) == Err::<Option<Seq<u8>>, Malformed>(e),
        },
{
    let all = buffer + more;
    if buffer.len() > 0 {
        assert(all[0] == buffer[0]);
        if buffer.len() > 1 {
            assert(all[1] == buffer[1]);
        }
        if buffer.len() > 2 {
            assert(all[2] == buffer[2]);
        }
        if buffer.len() >= 4 {
            assert(all.take(4) =~= buffer.take(4));
        }
        match length_spec(buffer) {
            Ok(Some(length)) => {
                if buffer.len() >= length {
                    assert(all.take(length as int) =~= buffer.take(length as int));
                }
            },
            _ => {},
        }
    }
}

/// A PDU in a frame of X.224 data is handed out as that frame, whatever has arrived
/// after it.
pub proof fn a_whole_frame_is_handed_out(payload: Seq<u8>, more: Seq<u8>)
    requires
        payload.len() <= 0xFFFF - x224::DATA_HEADER,
    ensures
        first_frame(x224::data_bytes(payload) + more) == Ok::<Option<Seq<u8>>, Malformed>(
            Some(x224::data_bytes(payload)),
        ),
{
    let frame = x224::data_bytes(payload);
    x224::a_frame_gives_back_its_payload(payload);
    fastpath::a_tpkt_frame_is_no_update();
    assert(frame[0] == x224::TPKT_VERSION);
    assert(frame.take(frame.len() as int) =~= frame);
    assert(first_frame(frame) == Ok::<Option<Seq<u8>>, Malformed>(Some(frame)));
    what_follows_a_frame_changes_nothing(frame, more);
}

} // verus!
