use xp::tracker::{DefaultEvent, DefaultTracker, Telemetry};

#[test]
fn tracker_is_ready_until_something_happens() {
    let mut tracker = DefaultTracker::new(1.5f64, 2.5f64);
    assert!(tracker.is_ready());
    assert_eq!(tracker.download(), 1.5);
    assert_eq!(tracker.upload(), 2.5);
    tracker.register(DefaultEvent::LocalToRemote { state: 10, metadata: 2, upload: tracker.upload() });
    assert!(!tracker.is_ready());
    assert_eq!(tracker.events().len(), 1);
}

#[test]
fn tracker_ignores_events_after_finish() {
    let mut tracker = DefaultTracker::new(1u32, 1u32);
    tracker.register(DefaultEvent::RemoteToLocal { state: 1, metadata: 0, download: 1 });
    tracker.finish(3);
    tracker.register(DefaultEvent::RemoteToLocal { state: 5, metadata: 0, download: 1 });
    tracker.finish(7);
    assert_eq!(tracker.events().len(), 1);
    assert_eq!(tracker.false_matches(), 3);
    assert!(!tracker.is_ready());
}

#[test]
fn finished_tracker_is_not_ready() {
    let mut tracker = DefaultTracker::new(0u8, 0u8);
    tracker.finish(0);
    assert!(!tracker.is_ready());
    assert_eq!(tracker.false_matches(), 0);
}

#[test]
fn event_bytes_add_state_and_metadata() {
    let up = DefaultEvent::LocalToRemote { state: 100, metadata: 28, upload: 9u16 };
    assert_eq!(up.state(), 100);
    assert_eq!(up.metadata(), 28);
    assert_eq!(up.bytes(), 128);
    assert_eq!(up.upload(), 9);
    let down = DefaultEvent::RemoteToLocal { state: 0, metadata: 8, download: 4u16 };
    assert_eq!(down.bytes(), 8);
    assert_eq!(down.download(), 4);
}

#[test]
fn group_by_message_appends_the_i_th_event_to_the_i_th_message() {
    let mut acc: Vec<Vec<DefaultEvent<f64>>> = Vec::new();
    let first = vec![
        DefaultEvent::LocalToRemote { state: 1, metadata: 2, upload: 1.0 },
        DefaultEvent::RemoteToLocal { state: 3, metadata: 4, download: 2.0 },
    ];
    xp::tracker::group_by_message(&mut acc, &first);
    let second = vec![
        DefaultEvent::LocalToRemote { state: 5, metadata: 6, upload: 1.0 },
        DefaultEvent::RemoteToLocal { state: 7, metadata: 8, download: 2.0 },
        DefaultEvent::LocalToRemote { state: 9, metadata: 10, upload: 1.0 },
    ];
    xp::tracker::group_by_message(&mut acc, &second);
    assert_eq!(acc.len(), 3);
    assert_eq!(acc[0].len(), 2);
    assert_eq!(acc[1].len(), 2);
    assert_eq!(acc[2].len(), 1);
    assert!(matches!(acc[0][1], DefaultEvent::LocalToRemote { state: 5, metadata: 6, .. }));
    assert!(matches!(acc[1][0], DefaultEvent::RemoteToLocal { state: 3, metadata: 4, .. }));
    assert!(matches!(acc[1][1], DefaultEvent::RemoteToLocal { state: 7, metadata: 8, .. }));
    assert!(matches!(acc[2][0], DefaultEvent::LocalToRemote { state: 9, metadata: 10, .. }));
}
