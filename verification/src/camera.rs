//! The camera side of a session: a feed the caller hands a device and its samples to, and
//! a sink the session tells the host's decisions to.
//!
//! The way in is two queues rather than one, because the two kinds of traffic want
//! opposite things when the session is behind: plugging and unplugging must never be lost,
//! and a sample is worthless once it is late. So the device's commands queue without
//! limit, and a sample that finds its own bounded queue full is dropped, with every sample
//! after it until a keyframe, because H.264 cannot resume from the middle of a group of
//! pictures. The queues are the caller's; what is decided about a sample, by whether there
//! was room for it, is [`fed`].

use vstd::prelude::*;

verus! {

/// How many samples may wait for the session.
///
/// The session drains the queue between PDUs and meters the samples out by the host's
/// requests itself, so a full queue is a session busy elsewhere, a resize, a burst of
/// desktop, for long enough that half a second of camera is already late.
pub const SAMPLE_QUEUE: usize = 16;

/// The H.264 a camera produces.
#[derive(Clone, Copy, Debug, PartialEq, Eq)]
pub struct Format {
    pub width: u32,
    pub height: u32,
    pub fps_numerator: u32,
    pub fps_denominator: u32,
}

/// A camera for a session to offer: the name the host shows beside it, and where the
/// host's decisions about it go.
pub struct Camera<S: CameraSink> {
    pub name: String,
    pub sink: S,
}

/// Where the host's camera decisions go.
///
/// Called by the session, in step with the desktop being decoded, so nothing here may
/// wait.
pub trait CameraSink {
    /// The host agreed a protocol version, so camera redirection is on offer. A host that
    /// never says this does not create the enumeration channel at all: a policy that turns
    /// it off, or a Windows Server without the Remote Desktop Session Host role.
    fn negotiated(&self, version: u8);

    /// The host opened the device's channel: the camera is being installed over there.
    fn attached(&self);

    /// An application on the host started the stream: samples in `format` are wanted, from
    /// a keyframe on.
    fn started(&self, format: Format);

    /// The stream stopped. The device stays plugged, and another start may follow.
    fn stopped(&self);

    /// Samples were dropped, and the next one must be a keyframe.
    fn keyframe_needed(&self);
}

/// One thing to do with the device.
#[derive(Clone, Copy, Debug, PartialEq, Eq)]
pub enum CameraCommand {
    /// Offer the host a camera producing H.264 in this format.
    Plug(Format),
    /// Withdraw the device; the host sees the camera unplug.
    Unplug,
}

/// One encoded H.264 picture, Annex B, parameter sets inline on a keyframe.
#[derive(Clone, Debug, PartialEq, Eq)]
pub struct Sample {
    pub data: Vec<u8>,
    pub keyframe: bool,
}

/// One thing the caller's feed wants done, as the session takes it.
#[derive(Clone, Debug, PartialEq, Eq)]
pub enum CameraInput {
    Command(CameraCommand),
    Sample(Sample),
}

/// What became of a sample handed to the feed.
#[derive(Clone, Copy, Debug, PartialEq, Eq)]
pub enum Fed {
    /// On its way to the session.
    Queued,
    /// Dropped for a full queue, opening a gap: the caller owes a keyframe.
    Dropped,
    /// Dropped inside a gap already reported: nothing new is owed.
    Skipped,
    /// The session has ended.
    Ended,
}

/// What the sample queue said to a sample.
#[derive(Clone, Copy, Debug, PartialEq, Eq)]
pub enum Room {
    /// It was taken.
    Taken,
    /// There was no room for it.
    Full,
    /// Nobody takes samples any more.
    Closed,
}

/// Whether a sample is not worth offering to the queue: inside a gap only a keyframe is.
pub fn is_skipped(gap: bool, keyframe: bool) -> (skipped: bool)
    ensures
        skipped == (gap && !keyframe),
{
    gap && !keyframe
}

/// The gap after a sample that was offered to the queue, and what became of it.
pub open spec fn fed_spec(gap: bool, keyframe: bool, room: Room) -> (bool, Fed) {
    match room {
        Room::Taken => (false, Fed::Queued),
        Room::Full => (true, if keyframe || !gap { Fed::Dropped } else { Fed::Skipped }),
        Room::Closed => (gap, Fed::Ended),
    }
}

/// What a full queue does: it drops the sample and every later one but a keyframe, and says
/// so once, with [`Fed::Dropped`]. A keyframe lost to the queue is owed again, or the gap
/// never closes.
pub fn fed(gap: bool, keyframe: bool, room: Room) -> (after: (bool, Fed))
    ensures
        after == fed_spec(gap, keyframe, room),
{
    match room {
        Room::Taken => (false, Fed::Queued),
        Room::Full => (true, if keyframe || !gap { Fed::Dropped } else { Fed::Skipped }),
        Room::Closed => (gap, Fed::Ended),
    }
}

/// The gap after a sample, and what became of it, whether or not it was worth offering.
pub open spec fn sample_spec(gap: bool, keyframe: bool, room: Room) -> (bool, Fed) {
    if gap && !keyframe { (gap, Fed::Skipped) } else { fed_spec(gap, keyframe, room) }
}

/// The gap after these samples, each with what the queue would have said to it.
pub open spec fn gap_after(samples: Seq<(bool, Room)>) -> bool
    decreases samples.len(),
{
    if samples.len() == 0 {
        false
    } else {
        sample_spec(gap_after(samples.drop_last()), samples.last().0, samples.last().1).0
    }
}

/// What became of the last of these samples.
pub open spec fn last_fed(samples: Seq<(bool, Room)>) -> Fed
    recommends
        samples.len() > 0,
{
    sample_spec(gap_after(samples.drop_last()), samples.last().0, samples.last().1).1
}

/// Whatever the queue did, no picture reaches the session that depends on one that was
/// dropped: once a sample has been dropped, whatever follows it is dropped too until a
/// keyframe is taken.
pub proof fn nothing_follows_a_drop_but_a_keyframe(samples: Seq<(bool, Room)>, dropped: int, taken: int)
    requires
        0 <= dropped < taken < samples.len(),
        last_fed(samples.take(dropped + 1)) == Fed::Dropped,
        last_fed(samples.take(taken + 1)) == Fed::Queued,
    ensures
        exists|k: int|
            dropped < k <= taken && (#[trigger] samples[k]).0 && last_fed(samples.take(k + 1)) == Fed::Queued,
    decreases taken - dropped,
{
    assert(samples.take(dropped + 1).drop_last() =~= samples.take(dropped));
    assert(gap_after(samples.take(dropped + 1)));
    if !samples[taken].0 {
        assert(samples.take(taken + 1).drop_last() =~= samples.take(taken));
        assert(!gap_after(samples.take(taken)));
        closed_by_a_keyframe(samples, dropped, taken - 1);
    }
}

proof fn closed_by_a_keyframe(samples: Seq<(bool, Room)>, open: int, closed: int)
    requires
        0 <= open <= closed < samples.len(),
        gap_after(samples.take(open + 1)),
        !gap_after(samples.take(closed + 1)),
    ensures
        exists|k: int|
            open < k <= closed && (#[trigger] samples[k]).0 && last_fed(samples.take(k + 1)) == Fed::Queued,
    decreases closed - open,
{
    assert(samples.take(closed + 1).drop_last() =~= samples.take(closed));
    assert(samples.take(closed + 1).last() == samples[closed]);
    if gap_after(samples.take(closed)) {
        assert(samples[closed].0 && last_fed(samples.take(closed + 1)) == Fed::Queued);
    } else {
        closed_by_a_keyframe(samples, open, closed - 1);
    }
}

/// A gap is reported when it opens, and inside it only a keyframe that was lost again: a
/// sample that is not a keyframe is never reported twice.
pub proof fn a_gap_is_reported_once(gap: bool, room: Room)
    ensures
        sample_spec(true, false, room) == (true, Fed::Skipped),
        sample_spec(false, false, room).1 == Fed::Dropped ==> sample_spec(false, false, room).0,
        sample_spec(gap, true, Room::Full) == (true, Fed::Dropped),
        sample_spec(gap, true, Room::Taken) == (false, Fed::Queued),
{
}

} // verus!
