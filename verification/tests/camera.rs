use rdp_client::camera::{fed, is_skipped, Fed, Room, Sample, SAMPLE_QUEUE};
use tokio::sync::mpsc::{self, error::TrySendError};

/// A feed over a queue of the size samples wait in.
struct Feed {
    samples: mpsc::Sender<Sample>,
    gap: bool,
}

impl Feed {
    fn new() -> (Self, mpsc::Receiver<Sample>) {
        let (samples, queue) = mpsc::channel(SAMPLE_QUEUE);
        (Self { samples, gap: false }, queue)
    }

    fn sample(&mut self, data: &[u8], keyframe: bool) -> Fed {
        if is_skipped(self.gap, keyframe) {
            return Fed::Skipped;
        }
        let room = match self.samples.try_send(Sample { data: data.to_vec(), keyframe }) {
            Ok(()) => Room::Taken,
            Err(TrySendError::Full(_)) => Room::Full,
            Err(TrySendError::Closed(_)) => Room::Closed,
        };
        let (gap, fed) = fed(self.gap, keyframe, room);
        self.gap = gap;
        fed
    }
}

/// A full queue opens a gap, reported once; deltas inside it are skipped; a keyframe
/// that finds room closes it, and one that does not is owed again.
#[test]
fn a_full_queue_drops_to_a_keyframe_and_says_so_once() {
    let (mut feed, mut queue) = Feed::new();
    for _ in 0..SAMPLE_QUEUE {
        assert_eq!(feed.sample(&[1], false), Fed::Queued);
    }
    assert_eq!(feed.sample(&[2], false), Fed::Dropped);
    assert_eq!(feed.sample(&[3], false), Fed::Skipped);
    assert_eq!(feed.sample(&[4], true), Fed::Dropped, "a keyframe lost to the queue is owed again");
    assert!(queue.try_recv().is_ok());
    assert_eq!(feed.sample(&[5], false), Fed::Skipped, "room is not a keyframe");
    assert_eq!(feed.sample(&[6], true), Fed::Queued);
    assert!(queue.try_recv().is_ok());
    assert_eq!(feed.sample(&[7], false), Fed::Queued, "the gap closed");
}

/// A session that has ended says so, and a gap stays what it was.
#[test]
fn a_session_that_has_ended_takes_no_sample() {
    let (mut feed, queue) = Feed::new();
    drop(queue);
    assert_eq!(feed.sample(&[1], true), Fed::Ended);
    assert_eq!(fed(true, true, Room::Closed), (true, Fed::Ended));
    assert_eq!(fed(false, false, Room::Closed), (false, Fed::Ended));
}
