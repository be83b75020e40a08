//! The microphone side of a session: a feed the caller hands PCM to, and a sink the
//! session tells the host's decisions to.
//!
//! The protocol is [`crate::proto::rdpeai`]. PCM waits for the session in a bounded queue
//! that keeps the newest audio: a buffer arriving to a full queue pushes out the oldest, so
//! a session that was held up resumes at the live edge rather than a queue behind it. A
//! microphone late is worse than one missing a moment, and audio, unlike H.264, has
//! nothing to resume. [`MicrophoneFeed::flush`] empties the queue ahead of anything in it,
//! for audio that must not reach the host at all.

use std::collections::VecDeque;

use vstd::prelude::*;

use crate::proto::rdpeai::Format;

verus! {

/// How many buffers may wait for the session: at groups of 20 ms, a third of a second.
pub const SAMPLE_QUEUE: usize = 16;

/// Where the host's microphone decisions go.
///
/// Called by the session, in step with the desktop being decoded, so nothing here may
/// wait.
pub trait MicrophoneSink {
    /// The host agreed a protocol version, so microphone redirection is on offer. A
    /// Windows host opens the channel only once something on it starts recording.
    fn negotiated(&self, version: u32);

    /// An application on the host started recording: PCM in `format` is wanted.
    fn opened(&self, format: Format);

    /// The recording ended.
    fn closed(&self);
}

/// One thing the caller's feed wants done, as the session takes it.
#[derive(Debug, PartialEq, Eq)]
pub enum MicrophoneInput {
    Pcm(Vec<u8>),
    /// Everything queued before this was dropped, and a partial packet goes with it.
    Flush,
}

/// A [`MicrophoneInput`] by its contents.
pub enum MicrophoneInputView {
    Pcm(Seq<u8>),
    Flush,
}

impl View for MicrophoneInput {
    type V = MicrophoneInputView;

    open spec fn view(&self) -> MicrophoneInputView {
        match self {
            MicrophoneInput::Pcm(pcm) => MicrophoneInputView::Pcm(pcm@),
            MicrophoneInput::Flush => MicrophoneInputView::Flush,
        }
    }
}

/// What waits between a feed and the session.
#[derive(Debug)]
pub struct MicrophoneFeed {
    buffers: VecDeque<Vec<u8>>,
    flush: bool,
    /// The session is gone.
    ended: bool,
}

/// A [`MicrophoneFeed`] by its contents, the oldest buffer first.
#[verifier::ext_equal]
pub struct FeedView {
    pub buffers: Seq<Seq<u8>>,
    pub flush: bool,
    pub ended: bool,
}

impl View for MicrophoneFeed {
    type V = FeedView;

    closed spec fn view(&self) -> FeedView {
        FeedView {
            buffers: Seq::new(self.buffers@.len(), |i: int| self.buffers@[i]@),
            flush: self.flush,
            ended: self.ended,
        }
    }
}

impl FeedView {
    pub open spec fn empty() -> FeedView {
        FeedView { buffers: seq![], flush: false, ended: false }
    }

    /// No more waits than may.
    pub open spec fn wf(self) -> bool {
        self.buffers.len() <= SAMPLE_QUEUE
    }

    /// A buffer on the queue, in place of the oldest where there is no room for it.
    pub open spec fn sampled(self, pcm: Seq<u8>) -> FeedView {
        if self.ended {
            self
        } else {
            FeedView {
                buffers: (if self.buffers.len() == SAMPLE_QUEUE { self.buffers.skip(1) } else { self.buffers })
                    .push(pcm),
                ..self
            }
        }
    }

    pub open spec fn flushed(self) -> FeedView {
        if self.ended { self } else { FeedView { buffers: seq![], flush: true, ..self } }
    }

    /// What is taken next, and what is left: a flush goes before any buffer.
    pub open spec fn taken(self) -> (FeedView, Option<MicrophoneInputView>) {
        if self.flush {
            (FeedView { flush: false, ..self }, Some(MicrophoneInputView::Flush))
        } else if self.buffers.len() > 0 {
            (
                FeedView { buffers: self.buffers.skip(1), ..self },
                Some(MicrophoneInputView::Pcm(self.buffers[0])),
            )
        } else {
            (self, None)
        }
    }
}

impl MicrophoneFeed {
    pub fn new() -> (feed: MicrophoneFeed)
        ensures
            feed@ == FeedView::empty(),
            feed@.wf(),
    {
        let feed = MicrophoneFeed { buffers: VecDeque::new(), flush: false, ended: false };
        assert(feed@ =~= FeedView::empty());
        feed
    }

    /// Interleaved 16-bit little-endian PCM in the format the host opened. The session
    /// sends it while the host records and drops it otherwise. A full queue drops its
    /// oldest buffer to take this one. Returns `false` once the session has ended.
    pub fn sample(&mut self, pcm: Vec<u8>) -> (taken: bool)
        requires
            old(self)@.wf(),
        ensures
            final(self)@ == old(self)@.sampled(pcm@),
            final(self)@.wf(),
            taken == !old(self)@.ended,
    {
        if self.ended {
            return false;
        }
        if self.buffers.len() == SAMPLE_QUEUE {
            let _ = self.buffers.pop_front();
        }
        self.buffers.push_back(pcm);
        assert(self@ =~= old(self)@.sampled(pcm@));
        true
    }

    /// Drop every buffer not yet taken, and the partial packet the session holds: the
    /// audio that follows, if any, is a different stream.
    pub fn flush(&mut self)
        ensures
            final(self)@ == old(self)@.flushed(),
            old(self)@.wf() ==> final(self)@.wf(),
    {
        if self.ended {
            return;
        }
        self.buffers.clear();
        self.flush = true;
        assert(self@ =~= old(self)@.flushed());
    }

    /// The next thing the caller wants, a flush before any buffer, or `None` while there
    /// is nothing.
    pub fn next(&mut self) -> (input: Option<MicrophoneInput>)
        ensures
            final(self)@ == old(self)@.taken().0,
            match old(self)@.taken().1 {
                Some(want) => input matches Some(got) && got@ == want,
                None => input is None,
            },
            old(self)@.wf() ==> final(self)@.wf(),
    {
        if self.flush {
            self.flush = false;
            assert(self@ =~= old(self)@.taken().0);
            return Some(MicrophoneInput::Flush);
        }
        match self.buffers.pop_front() {
            Some(pcm) => {
                assert(self@ =~= old(self)@.taken().0);
                Some(MicrophoneInput::Pcm(pcm))
            },
            None => {
                assert(self@ =~= old(self)@.taken().0);
                None
            },
        }
    }

    /// The session is gone, and takes nothing more.
    pub fn end(&mut self)
        ensures
            final(self)@ == (FeedView { buffers: seq![], ended: true, ..old(self)@ }),
    {
        self.ended = true;
        self.buffers.clear();
        assert(self@.buffers =~= seq![]);
    }
}

/// The queue after these buffers, and nothing taken in between.
pub open spec fn sampled_all(feed: FeedView, buffers: Seq<Seq<u8>>) -> FeedView
    decreases buffers.len(),
{
    if buffers.len() == 0 {
        feed
    } else {
        sampled_all(feed, buffers.drop_last()).sampled(buffers.last())
    }
}

/// A queue nobody drains holds the newest audio, in the order it came: the last
/// [`SAMPLE_QUEUE`] buffers of all it was given, or all of them.
pub proof fn the_newest_audio_is_kept(buffers: Seq<Seq<u8>>)
    ensures
        sampled_all(FeedView::empty(), buffers).buffers == if buffers.len() <= SAMPLE_QUEUE {
            buffers
        } else {
            buffers.skip(buffers.len() - SAMPLE_QUEUE)
        },
        !sampled_all(FeedView::empty(), buffers).ended,
        !sampled_all(FeedView::empty(), buffers).flush,
    decreases buffers.len(),
{
    if buffers.len() > 0 {
        let before = buffers.drop_last();
        the_newest_audio_is_kept(before);
        assert(before.push(buffers.last()) =~= buffers);
        if buffers.len() > SAMPLE_QUEUE {
            let kept = sampled_all(FeedView::empty(), before).buffers;
            assert(kept.skip(1).push(buffers.last()) =~= buffers.skip(buffers.len() - SAMPLE_QUEUE));
        }
    }
}

/// A flush goes before and instead of what was queued: nothing that was fed before it is
/// taken after it.
pub proof fn a_flush_goes_before_and_instead(feed: FeedView, after: Seq<u8>)
    requires
        !feed.ended,
        feed.wf(),
    ensures
        feed.flushed().sampled(after).taken() == (
            FeedView { buffers: seq![after], flush: false, ..feed },
            Some(MicrophoneInputView::Flush),
        ),
{
    assert(seq![].push(after) =~= seq![after]);
}

} // verus!
