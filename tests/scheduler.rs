use mpeg2::{AppState, FrameMode, MpegFrame, Picture, PresentationScheduler};

const MS: u64 = 1_000_000;

fn frame(id: usize, mode: FrameMode, duration_ms: u64) -> MpegFrame {
    MpegFrame { id, mode, duration_ns: duration_ms * MS }
}

#[test]
fn progressive_frame_loads_after_one_duration() {
    let mut s = PresentationScheduler::new(10);
    let f = frame(0, FrameMode::PROG, 40);
    let out = s.cycle(39 * MS, &f);
    assert_eq!(out.load, None);
    assert_eq!(out.wake_after_ns, Some(MS));
    assert!(!out.show_second);
    let out = s.cycle(41 * MS, &f);
    assert_eq!(out.load, Some(1));
    assert_eq!(s.index(), 1);
    assert_eq!(s.slot(), 0);
    assert_eq!(out.wake_after_ns, Some(40 * MS));
}

#[test]
fn interlaced_load_resets_the_slot() {
    let mut s = PresentationScheduler::new(10);
    let f = frame(0, FrameMode::TFF, 40);
    let out = s.cycle(10 * MS, &f);
    assert_eq!((out.load, s.slot(), out.show_second), (None, 0, false));
    assert_eq!(out.wake_after_ns, Some(10 * MS));
    let out = s.cycle(25 * MS, &f);
    assert_eq!((out.load, s.slot(), out.show_second), (None, 1, true));
    assert_eq!(out.wake_after_ns, Some(15 * MS));
    let out = s.cycle(39 * MS, &f);
    assert_eq!(out.load, None);
    let out = s.cycle(41 * MS, &f);
    assert_eq!((out.load, s.slot(), out.show_second), (Some(1), 0, false));
    assert_eq!(out.wake_after_ns, Some(20 * MS));
}

#[test]
fn repeat_first_field_takes_three_field_times() {
    let mut s = PresentationScheduler::new(3);
    let f = frame(0, FrameMode::RFF_BFF, 40);
    let out = s.cycle(20 * MS, &f);
    assert_eq!((out.load, s.slot(), out.show_second), (None, 1, false));
    assert_eq!(out.wake_after_ns, Some(20 * MS));
    let out = s.cycle(40 * MS, &f);
    assert_eq!((out.load, s.slot(), out.show_second), (None, 2, true));
    assert_eq!(out.wake_after_ns, Some(20 * MS));
    let out = s.cycle(59 * MS, &f);
    assert_eq!(out.load, None);
    assert_eq!(out.wake_after_ns, Some(MS));
    let out = s.cycle(60 * MS, &f);
    assert_eq!((out.load, s.slot()), (Some(1), 0));
}

#[test]
fn late_cycles_wake_at_once() {
    let mut s = PresentationScheduler::new(2);
    let f = frame(0, FrameMode::TFF, 40);
    s.cycle(30 * MS, &f);
    let out = s.cycle(39 * MS, &f);
    assert_eq!(out.wake_after_ns, Some(MS));
    let mut s = PresentationScheduler::new(2);
    let out = s.cycle(0, &frame(0, FrameMode::TFF, 0));
    assert_eq!(out.load, Some(1));
    assert_eq!(out.wake_after_ns, Some(0));
}

#[test]
fn odd_durations_round_slot_ends_up() {
    let mut s = PresentationScheduler::new(2);
    let f = MpegFrame { id: 0, mode: FrameMode::TFF, duration_ns: 5 };
    let out = s.cycle(0, &f);
    assert_eq!(out.wake_after_ns, Some(3));
    let out = s.cycle(2, &f);
    assert_eq!((s.slot(), out.wake_after_ns), (0, Some(1)));
    let out = s.cycle(3, &f);
    assert_eq!((s.slot(), out.wake_after_ns), (1, Some(2)));
}

#[test]
fn playing_wraps_to_the_first_frame() {
    let mut s = PresentationScheduler::new(2);
    let out = s.cycle(50 * MS, &frame(0, FrameMode::PROG, 40));
    assert_eq!(out.load, Some(1));
    let out = s.cycle(50 * MS, &frame(1, FrameMode::PROG, 40));
    assert_eq!(out.load, Some(0));
    assert_eq!(s.index(), 0);
}

#[test]
fn pause_holds_everything() {
    let mut s = PresentationScheduler::new(4);
    s.toggle_play();
    assert_eq!(s.state(), AppState::Pause);
    let out = s.cycle(500 * MS, &frame(0, FrameMode::PROG, 40));
    assert_eq!((out.load, out.wake_after_ns), (None, None));
    assert_eq!(s.index(), 0);
    s.toggle_play();
    assert_eq!(s.state(), AppState::Play);
}

#[test]
fn steps_walk_fields_then_frames() {
    let mut s = PresentationScheduler::new(3);
    s.toggle_play();
    let f = frame(0, FrameMode::TFF, 40);
    s.step_forward(&f);
    assert_eq!((s.state(), s.index(), s.slot()), (AppState::Next, 0, 1));
    let out = s.cycle(0, &f);
    assert_eq!((out.load, out.show_second, out.wake_after_ns), (None, true, None));
    assert_eq!(s.state(), AppState::Pause);
    s.step_forward(&f);
    assert_eq!((s.index(), s.slot()), (1, 0));
    let out = s.cycle(0, &f);
    assert_eq!(out.load, Some(1));
    assert_eq!(s.state(), AppState::Pause);
    let out = s.cycle(0, &f);
    assert_eq!(out.load, None);
}

#[test]
fn step_back_wraps_to_the_last_frame() {
    let mut s = PresentationScheduler::new(3);
    s.toggle_play();
    let f = frame(0, FrameMode::RFF_TFF, 40);
    s.step_backward(&f);
    assert_eq!((s.state(), s.index(), s.slot()), (AppState::Previous, 2, 2));
    let out = s.cycle(0, &f);
    assert_eq!(out.load, Some(2));
    let g = frame(2, FrameMode::RFF_TFF, 40);
    s.step_backward(&g);
    assert_eq!((s.index(), s.slot()), (2, 1));
    let p = frame(2, FrameMode::PROG, 40);
    s.step_backward(&p);
    assert_eq!((s.index(), s.slot()), (1, 1));
    s.step_forward(&p);
    s.step_forward(&p);
    assert_eq!(s.index(), 0);
}

#[test]
fn frame_flags() {
    let modes = [
        (FrameMode::PROG, false, false, 0),
        (FrameMode::TFF, true, false, 1),
        (FrameMode::BFF, true, false, 1),
        (FrameMode::RFF_TFF, true, true, 2),
        (FrameMode::RFF_BFF, true, true, 2),
    ];
    for (mode, interlaced, repeat, second) in modes {
        let f = frame(0, mode, 40);
        assert_eq!(f.interlaced(), interlaced);
        assert_eq!(f.repeat_first_field(), repeat);
        assert_eq!(f.second_field_display_idx(), second);
    }
}

#[test]
fn frame_description() {
    let pic = Picture { duration_ms: 25, picture_type: FrameMode::RFF_TFF, id: 3 };
    let f = MpegFrame::describe(3, None, None, Some(pic));
    assert_eq!((f.id, f.mode, f.duration_ns), (3, FrameMode::RFF_TFF, 25 * MS));
    let f = MpegFrame::describe(3, Some(FrameMode::TFF), Some(50), Some(pic));
    assert_eq!((f.mode, f.duration_ns), (FrameMode::TFF, 20 * MS));
    let f = MpegFrame::describe(4, None, None, None);
    assert_eq!((f.mode, f.duration_ns), (FrameMode::PROG, 40 * MS));
    let huge = Picture { duration_ms: u64::MAX, picture_type: FrameMode::PROG, id: 0 };
    assert_eq!(MpegFrame::describe(0, None, None, Some(huge)).duration_ns, u64::MAX);
}
