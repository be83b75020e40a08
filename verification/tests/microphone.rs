use rdp_client::microphone::{MicrophoneFeed, MicrophoneInput, SAMPLE_QUEUE};

#[test]
fn a_full_queue_keeps_the_newest_audio() {
    let mut feed = MicrophoneFeed::new();
    for n in 0..=SAMPLE_QUEUE {
        assert!(feed.sample(vec![n as u8]));
    }
    assert_eq!(feed.next(), Some(MicrophoneInput::Pcm(vec![1])), "the oldest was dropped");
    feed.end();
    assert!(!feed.sample(vec![0]), "an ended session takes nothing");
    assert_eq!(feed.next(), None);
}

#[test]
fn a_flush_goes_before_and_instead_of_what_was_queued() {
    let mut feed = MicrophoneFeed::new();
    feed.sample(vec![1]);
    feed.sample(vec![2]);
    feed.flush();
    feed.sample(vec![3]);
    assert_eq!(feed.next(), Some(MicrophoneInput::Flush));
    assert_eq!(feed.next(), Some(MicrophoneInput::Pcm(vec![3])));
    assert_eq!(feed.next(), None);
}

/// Nothing is flushed for a session that is gone.
#[test]
fn an_ended_session_is_not_flushed() {
    let mut feed = MicrophoneFeed::new();
    feed.end();
    feed.flush();
    assert_eq!(feed.next(), None);
}
