//! Presentation timing: which field is due, when to load the next frame, and
//! how long to sleep.

use vstd::prelude::*;

use crate::flag::FrameMode;
use crate::metadata_parser::Picture;

verus! {

/// A loaded frame: its index, its mode and its nominal duration.
#[derive(Debug, Clone, Copy, PartialEq, Eq, Structural)]
pub struct MpegFrame {
    pub id: usize,
    pub mode: FrameMode,
    /// Nominal display time, in nanoseconds.
    pub duration_ns: u64,
}

/// The frame has two fields.
pub open spec fn is_interlaced(mode: FrameMode) -> bool {
    mode != FrameMode::PROG
}

/// The first field is shown once more.
pub open spec fn repeats_first_field(mode: FrameMode) -> bool {
    mode == FrameMode::RFF_TFF || mode == FrameMode::RFF_BFF
}

/// The first slot that shows the second field: slots run `0, 1, 2` for
/// repeat-first-field modes, `0, 1` for other interlaced modes, and a
/// progressive frame has slot `0` only.
pub open spec fn second_field_slot(mode: FrameMode) -> int {
    match mode {
        FrameMode::RFF_TFF | FrameMode::RFF_BFF => 2,
        FrameMode::TFF | FrameMode::BFF => 1,
        FrameMode::PROG => 0,
    }
}

/// Duration of a frame that no metadata describes: 40 ms.
pub const DEFAULT_DURATION_NS: u64 = 40_000_000;

pub const NANOS_PER_SECOND: u64 = 1_000_000_000;

pub const NANOS_PER_MILLI: u64 = 1_000_000;

/// The mode of a frame: the one forced, else its picture's, else progressive.
pub open spec fn chosen_mode(forced: Option<FrameMode>, picture: Option<Picture>) -> FrameMode {
    match forced {
        Some(m) => m,
        None => match picture {
            Some(p) => p.picture_type,
            None => FrameMode::PROG,
        },
    }
}

/// The duration of a frame in nanoseconds: one over the forced frame rate,
/// else its picture's duration (saturated), else the default.
pub open spec fn chosen_duration(frames_per_second: Option<u64>, picture: Option<Picture>) -> u64 {
    match frames_per_second {
        Some(f) => (NANOS_PER_SECOND / f) as u64,
        None => match picture {
            Some(p) => if p.duration_ms * NANOS_PER_MILLI > u64::MAX {
                u64::MAX
            } else {
                (p.duration_ms * NANOS_PER_MILLI) as u64
            },
            None => DEFAULT_DURATION_NS,
        },
    }
}

impl MpegFrame {
    /// The frame `id`, described by its picture's metadata where there is
    /// some, unless a mode or a frame rate is forced.
    pub fn describe(
        id: usize,
        forced_mode: Option<FrameMode>,
        frames_per_second: Option<u64>,
        picture: Option<Picture>,
    ) -> (f: MpegFrame)
        requires
            frames_per_second != Some(0u64),
        ensures
            f.id == id,
            f.mode == chosen_mode(forced_mode, picture),
            f.duration_ns == chosen_duration(frames_per_second, picture),
    {
        let mode = match forced_mode {
            Some(m) => m,
            None => match picture {
                Some(p) => p.picture_type,
                None => FrameMode::PROG,
            },
        };
        let duration_ns = match frames_per_second {
            Some(f) => NANOS_PER_SECOND / f,
            None => match picture {
                Some(p) => if p.duration_ms > u64::MAX / NANOS_PER_MILLI {
                    u64::MAX
                } else {
                    p.duration_ms * NANOS_PER_MILLI
                },
                None => DEFAULT_DURATION_NS,
            },
        };
        MpegFrame { id, mode, duration_ns }
    }

    pub fn interlaced(&self) -> (r: bool)
        ensures
            r == is_interlaced(self.mode),
    {
        self.mode != FrameMode::PROG
    }

    pub fn repeat_first_field(&self) -> (r: bool)
        ensures
            r == repeats_first_field(self.mode),
    {
        self.mode == FrameMode::RFF_TFF || self.mode == FrameMode::RFF_BFF
    }

    pub fn second_field_display_idx(&self) -> (r: i8)
        ensures
            r == second_field_slot(self.mode),
    {
        match self.mode {
            FrameMode::RFF_TFF | FrameMode::RFF_BFF => 2,
            FrameMode::TFF | FrameMode::BFF => 1,
            FrameMode::PROG => 0,
        }
    }
}

/// What the presentation is doing.
#[derive(Debug, Clone, Copy, PartialEq, Eq, Structural)]
pub enum AppState {
    Play,
    Pause,
    /// A step forward waits for its frame to be loaded.
    Next,
    /// A step backward waits for its frame to be loaded.
    Previous,
}

/// The frame is due to be replaced after `elapsed` nanoseconds: after one
/// duration, or one and a half for repeat-first-field modes (three field
/// times).
pub open spec fn frame_due(frame: MpegFrame, elapsed: nat) -> bool {
    if repeats_first_field(frame.mode) {
        2 * elapsed >= 3 * frame.duration_ns
    } else {
        elapsed >= frame.duration_ns
    }
}

/// The slot after `elapsed` nanoseconds of an interlaced frame: 1 from half a
/// duration on, 2 from a whole duration on for repeat-first-field modes. A
/// slot never goes back while the frame stays.
pub open spec fn advanced_slot(frame: MpegFrame, slot: int, elapsed: nat) -> int {
    if !is_interlaced(frame.mode) {
        slot
    } else if repeats_first_field(frame.mode) && elapsed >= frame.duration_ns {
        2
    } else if 2 * elapsed >= frame.duration_ns {
        1
    } else {
        slot
    }
}

/// When the current slot ends, in nanoseconds since the frame was loaded:
/// half a duration per slot of an interlaced frame, rounded up; a whole
/// duration for a progressive one.
pub open spec fn slot_end(frame: MpegFrame, slot: int) -> int {
    if is_interlaced(frame.mode) {
        ((slot + 1) * frame.duration_ns + 1) / 2
    } else {
        frame.duration_ns as int
    }
}

/// `x` floored at zero and capped at the largest `u64`.
pub open spec fn clamp_delay(x: int) -> u64 {
    if x <= 0 {
        0
    } else if x > u64::MAX {
        u64::MAX
    } else {
        x as u64
    }
}

/// The displayed field is the second one.
pub open spec fn shows_second(frame: MpegFrame, slot: int) -> bool {
    is_interlaced(frame.mode) && slot >= second_field_slot(frame.mode)
}

/// The index after `index` among `count`, wrapping to the first.
pub open spec fn next_index(index: nat, count: nat) -> nat {
    if index + 1 >= count {
        0
    } else {
        index + 1
    }
}

/// The index before `index` among `count`, wrapping to the last.
pub open spec fn previous_index(index: nat, count: nat) -> nat {
    if index == 0 {
        (count - 1) as nat
    } else {
        (index - 1) as nat
    }
}

/// The decisions of one refresh cycle.
#[derive(Debug, Clone, Copy, PartialEq, Eq, Structural)]
pub struct CycleOutcome {
    /// The frame to load, if one is due; its clock starts anew.
    pub load: Option<usize>,
    /// Show the second field rather than the first.
    pub show_second: bool,
    /// Wake again after this many nanoseconds, or only on input.
    pub wake_after_ns: Option<u64>,
}

/// The presentation's timing state machine over `frame_count` frames.
pub struct PresentationScheduler {
    state: AppState,
    index: usize,
    frame_count: usize,
    slot: i8,
}

impl PresentationScheduler {
    pub closed spec fn spec_state(&self) -> AppState {
        self.state
    }

    /// The index of the frame that is shown, or that a step waits for.
    pub closed spec fn spec_index(&self) -> nat {
        self.index as nat
    }

    pub closed spec fn spec_frame_count(&self) -> nat {
        self.frame_count as nat
    }

    /// The current field slot.
    pub closed spec fn spec_slot(&self) -> int {
        self.slot as int
    }

    #[verifier::type_invariant]
    spec fn well_formed(&self) -> bool {
        &&& self.index < self.frame_count
        &&& 0 <= self.slot <= 2
    }

    /// Playing from the first frame, first field.
    pub fn new(frame_count: usize) -> (s: Self)
        requires
            frame_count > 0,
        ensures
            s.spec_state() == AppState::Play,
            s.spec_index() == 0,
            s.spec_frame_count() == frame_count,
            s.spec_slot() == 0,
    {
        PresentationScheduler { state: AppState::Play, index: 0, frame_count, slot: 0 }
    }

    pub fn state(&self) -> (r: AppState)
        ensures
            r == self.spec_state(),
    {
        self.state
    }

    pub fn index(&self) -> (r: usize)
        ensures
            r == self.spec_index(),
            r < self.spec_frame_count(),
    {
        proof {
            use_type_invariant(self);
        }
        self.index
    }

    pub fn slot(&self) -> (r: i8)
        ensures
            r == self.spec_slot(),
            0 <= r <= 2,
    {
        proof {
            use_type_invariant(self);
        }
        self.slot
    }

    /// One refresh cycle, `elapsed_ns` nanoseconds after `loaded` was loaded.
    ///
    /// Playing, the next frame is loaded when `loaded` is due, which starts
    /// its clock anew at slot 0; the slot then advances with the time
    /// elapsed, and the cycle asks to wake when the current slot ends. A
    /// pending step loads its frame if `loaded` is another one, then pauses.
    /// Paused, nothing happens.
    pub fn cycle(&mut self, elapsed_ns: u64, loaded: &MpegFrame) -> (out: CycleOutcome)
        ensures
            final(self).spec_frame_count() == old(self).spec_frame_count(),
            old(self).spec_state() == AppState::Play ==> {
                let due = frame_due(*loaded, elapsed_ns as nat);
                let index = if due {
                    next_index(old(self).spec_index(), old(self).spec_frame_count())
                } else {
                    old(self).spec_index()
                };
                let elapsed: nat = if due {
                    0
                } else {
                    elapsed_ns as nat
                };
                let slot = advanced_slot(
                    *loaded,
                    if due {
                        0
                    } else {
                        old(self).spec_slot()
                    },
                    elapsed,
                );
                &&& final(self).spec_state() == AppState::Play
                &&& final(self).spec_index() == index
                &&& final(self).spec_slot() == slot
                &&& out.load == if due {
                    Some(index as usize)
                } else {
                    None
                }
                &&& out.show_second == shows_second(*loaded, slot)
                &&& out.wake_after_ns == Some(clamp_delay(slot_end(*loaded, slot) - elapsed))
            },
            old(self).spec_state() == AppState::Next || old(self).spec_state() == AppState::Previous
                ==> {
                &&& final(self).spec_state() == AppState::Pause
                &&& final(self).spec_index() == old(self).spec_index()
                &&& final(self).spec_slot() == old(self).spec_slot()
                &&& out.load == if loaded.id != old(self).spec_index() {
                    Some(old(self).spec_index() as usize)
                } else {
                    None
                }
                &&& out.show_second == shows_second(*loaded, old(self).spec_slot())
                &&& out.wake_after_ns.is_none()
            },
            old(self).spec_state() == AppState::Pause ==> {
                &&& final(self).spec_state() == AppState::Pause
                &&& final(self).spec_index() == old(self).spec_index()
                &&& final(self).spec_slot() == old(self).spec_slot()
                &&& out.load.is_none()
                &&& out.show_second == shows_second(*loaded, old(self).spec_slot())
                &&& out.wake_after_ns.is_none()
            },
    {
        proof {
            use_type_invariant(&*self);
        }
        let interlaced = loaded.interlaced();
        let second = loaded.second_field_display_idx();
        match self.state {
            AppState::Play => {
                let d = loaded.duration_ns as u128;
                let mut e = elapsed_ns as u128;
                let due = if loaded.repeat_first_field() {
                    2 * e >= 3 * d
                } else {
                    e >= d
                };
                let mut load = None;
                let mut slot = self.slot;
                if due {
                    self.index = if self.index + 1 >= self.frame_count {
                        0
                    } else {
                        self.index + 1
                    };
                    slot = 0;
                    e = 0;
                    load = Some(self.index);
                }
                if interlaced {
                    if loaded.repeat_first_field() && e >= d {
                        slot = 2;
                    } else if 2 * e >= d {
                        slot = 1;
                    }
                }
                self.slot = slot;
                let end: u128 = if interlaced {
                    let k = slot as u128 + 1;
                    assert(k * d <= 3 * d) by (nonlinear_arith)
                        requires
                            k <= 3,
                            d >= 0,
                    ;
                    (k * d + 1) / 2
                } else {
                    d
                };
                let wake = if end <= e {
                    0
                } else if end - e > u64::MAX as u128 {
                    u64::MAX
                } else {
                    (end - e) as u64
                };
                CycleOutcome {
                    load,
                    show_second: interlaced && slot >= second,
                    wake_after_ns: Some(wake),
                }
            },
            AppState::Next | AppState::Previous => {
                self.state = AppState::Pause;
                let load = if loaded.id != self.index {
                    Some(self.index)
                } else {
                    None
                };
                CycleOutcome { load, show_second: interlaced && self.slot >= second, wake_after_ns: None }
            },
            AppState::Pause => CycleOutcome {
                load: None,
                show_second: interlaced && self.slot >= second,
                wake_after_ns: None,
            },
        }
    }

    /// Play pauses and pause plays; a pending step is left as it is.
    pub fn toggle_play(&mut self)
        ensures
            final(self).spec_state() == match old(self).spec_state() {
                AppState::Play => AppState::Pause,
                AppState::Pause => AppState::Play,
                other => other,
            },
            final(self).spec_index() == old(self).spec_index(),
            final(self).spec_slot() == old(self).spec_slot(),
            final(self).spec_frame_count() == old(self).spec_frame_count(),
    {
        proof {
            use_type_invariant(&*self);
        }
        self.state = match self.state {
            AppState::Play => AppState::Pause,
            AppState::Pause => AppState::Play,
            other => other,
        };
    }

    /// One step forward from `loaded`: the next slot of an interlaced frame,
    /// else the next frame's first slot. The step waits for the next cycle.
    pub fn step_forward(&mut self, loaded: &MpegFrame)
        ensures
            final(self).spec_state() == AppState::Next,
            final(self).spec_frame_count() == old(self).spec_frame_count(),
            is_interlaced(loaded.mode) && old(self).spec_slot() < second_field_slot(loaded.mode)
                ==> final(self).spec_slot() == old(self).spec_slot() + 1 && final(self).spec_index()
                == old(self).spec_index(),
            is_interlaced(loaded.mode) && old(self).spec_slot() >= second_field_slot(loaded.mode)
                ==> final(self).spec_slot() == 0 && final(self).spec_index() == next_index(
                old(self).spec_index(),
                old(self).spec_frame_count(),
            ),
            !is_interlaced(loaded.mode) ==> final(self).spec_slot() == old(self).spec_slot()
                && final(self).spec_index() == next_index(
                old(self).spec_index(),
                old(self).spec_frame_count(),
            ),
    {
        proof {
            use_type_invariant(&*self);
        }
        let next = if self.index + 1 >= self.frame_count {
            0
        } else {
            self.index + 1
        };
        if loaded.interlaced() {
            if self.slot >= loaded.second_field_display_idx() {
                self.slot = 0;
                self.index = next;
            } else {
                self.slot = self.slot + 1;
            }
        } else {
            self.index = next;
        }
        self.state = AppState::Next;
    }

    /// One step backward from `loaded`: the previous slot of an interlaced
    /// frame, else the previous frame's last slot. The step waits for the
    /// next cycle.
    pub fn step_backward(&mut self, loaded: &MpegFrame)
        ensures
            final(self).spec_state() == AppState::Previous,
            final(self).spec_frame_count() == old(self).spec_frame_count(),
            is_interlaced(loaded.mode) && old(self).spec_slot() > 0 ==> final(self).spec_slot()
                == old(self).spec_slot() - 1 && final(self).spec_index() == old(self).spec_index(),
            is_interlaced(loaded.mode) && old(self).spec_slot() <= 0 ==> final(self).spec_slot()
                == second_field_slot(loaded.mode) && final(self).spec_index() == previous_index(
                old(self).spec_index(),
                old(self).spec_frame_count(),
            ),
            !is_interlaced(loaded.mode) ==> final(self).spec_slot() == old(self).spec_slot()
                && final(self).spec_index() == previous_index(
                old(self).spec_index(),
                old(self).spec_frame_count(),
            ),
    {
        proof {
            use_type_invariant(&*self);
        }
        let previous = if self.index == 0 {
            self.frame_count - 1
        } else {
            self.index - 1
        };
        if loaded.interlaced() {
            if self.slot <= 0 {
                self.slot = loaded.second_field_display_idx();
                self.index = previous;
            } else {
                self.slot = self.slot - 1;
            }
        } else {
            self.index = previous;
        }
        self.state = AppState::Previous;
    }
}

} // verus!
