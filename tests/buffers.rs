use mpeg2::FrameSlots;

#[test]
fn requests_for_resident_or_pending_frames_are_no_ops() {
    let mut slots = FrameSlots::new();
    assert!(slots.begin(4));
    assert!(!slots.begin(4));
    assert!(!slots.holds(4));
    assert!(slots.finish(4));
    assert!(slots.holds(4));
    assert!(!slots.begin(4));
    assert!(slots.begin(5));
    assert!(slots.holds(4));
}

#[test]
fn stale_results_are_not_published() {
    let mut slots = FrameSlots::new();
    assert!(slots.begin(2));
    assert!(slots.begin(6));
    assert!(!slots.finish(2));
    assert!(!slots.holds(2));
    assert!(slots.finish(6));
    assert!(slots.holds(6));
    assert!(!slots.holds(2));
}

#[test]
fn abandoned_frames_can_be_asked_again() {
    let mut slots = FrameSlots::new();
    assert!(slots.begin(1));
    slots.abandon(3);
    assert!(!slots.begin(1));
    slots.abandon(1);
    assert!(slots.begin(1));
    assert!(slots.finish(1));
    assert!(slots.holds(1));
}
