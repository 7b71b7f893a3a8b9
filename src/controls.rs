use vstd::prelude::*;

use std::time::Instant;

use crate::input::Command;

verus! {

/// `std::time::Instant`, held opaque: the clock reading that frame times are measured from.
#[verifier::external_type_specification]
#[verifier::external_body]
pub struct ExInstant(Instant);

/// Relies on `std::time::Instant::now`: a reading of the monotonic clock, of which nothing is
/// assumed.
#[verifier::external_body]
fn now() -> Instant {
    Instant::now()
}

/// Play/pause state of the simulation clock.
pub struct TimeState {
    pub paused: bool,
    /// A single step was requested while paused.
    pub step: bool,
    /// When the clock last started running (or last measured a frame).
    pub last_instant: Instant,
}

impl TimeState {
    /// A paused clock with no step pending.
    pub fn new() -> (r: Self)
        ensures
            r.paused,
            !r.step,
    {
        TimeState { paused: true, step: false, last_instant: now() }
    }

    /// Toggles pause and restarts the frame timer.
    pub fn play_pause(&mut self)
        ensures
            final(self).paused == !old(self).paused,
            final(self).step == old(self).step,
    {
        self.paused = !self.paused;
        self.last_instant = now();
    }

    /// Requests one step; honoured only while paused.
    pub fn step(&mut self)
        ensures
            final(self).paused == old(self).paused,
            final(self).step == (old(self).step || old(self).paused),
            final(self).last_instant == old(self).last_instant,
    {
        if self.paused {
            self.step = true;
        }
    }

    /// Whether the simulation advances this frame: always while running; while paused only
    /// when a step is pending, which this consumes.
    pub fn can_update(&mut self) -> (r: bool)
        ensures
            r == (!old(self).paused || old(self).step),
            final(self).paused == old(self).paused,
            final(self).step == (old(self).step && !old(self).paused),
            final(self).last_instant == old(self).last_instant,
    {
        if self.paused {
            if self.step {
                self.step = false;
                true
            } else {
                false
            }
        } else {
            true
        }
    }
}

/// Visibility of the settings panel, its help text and the performance overlay.
pub struct Panel {
    pub show_self: bool,
    pub show_help: bool,
    pub show_perf: bool,
}

impl Default for Panel {
    /// Panel and help shown, performance overlay hidden.
    fn default() -> (r: Self)
        ensures
            r.show_self,
            r.show_help,
            !r.show_perf,
    {
        Panel { show_self: true, show_help: true, show_perf: false }
    }
}

impl Panel {

    pub fn toggle_help(&mut self)
        ensures
            final(self).show_help == !old(self).show_help,
            final(self).show_self == old(self).show_self,
            final(self).show_perf == old(self).show_perf,
    {
        self.show_help = !self.show_help;
    }

    pub fn toggle_self(&mut self)
        ensures
            final(self).show_self == !old(self).show_self,
            final(self).show_help == old(self).show_help,
            final(self).show_perf == old(self).show_perf,
    {
        self.show_self = !self.show_self;
    }

    pub fn toggle_perf(&mut self)
        ensures
            final(self).show_perf == !old(self).show_perf,
            final(self).show_self == old(self).show_self,
            final(self).show_help == old(self).show_help,
    {
        self.show_perf = !self.show_perf;
    }

    pub fn show_perf(&self) -> (r: bool)
        ensures
            r == self.show_perf,
    {
        self.show_perf
    }
}

/// Flags the settings panel raises while it is drawn: a reset of the particles, and a new
/// tessellation of the particle disc. They point into the state of their owners.
pub struct UpdateData<'a> {
    pub reset: &'a mut bool,
    pub retessellate: &'a mut bool,
}

impl<'a> UpdateData<'a> {
    /// Raises each flag whose setting changed; a raised flag stays raised.
    pub fn raise(self, reset_changed: bool, retessellate_changed: bool)
        ensures
            *final(self.reset) == (*old(self.reset) || reset_changed),
            *final(self.retessellate) == (*old(self.retessellate) || retessellate_changed),
    {
        *self.reset = *self.reset || reset_changed;
        *self.retessellate = *self.retessellate || retessellate_changed;
    }
}

/// What the frame driver must upload or redo on its next frame.
#[derive(Clone, Copy, Debug, PartialEq, Eq, Structural)]
pub struct UpdateState {
    pub mouse: bool,
    pub reset: bool,
}

impl Default for UpdateState {
    /// Both pending: the first frame uploads the mouse and lays the particles out.
    fn default() -> (r: Self)
        ensures
            r.mouse,
            r.reset,
    {
        UpdateState { mouse: true, reset: true }
    }
}

/// The state that key presses act on.
pub struct Controls {
    pub time: TimeState,
    pub panel: Panel,
    pub update: UpdateState,
}

impl Controls {
    /// Carries out `cmd`; returns whether the application should exit. Every part of the state
    /// that `cmd` does not name is left as it was.
    pub fn apply(&mut self, cmd: Command) -> (exit: bool)
        ensures
            exit == (cmd == Command::Exit),
            final(self).time.paused == (if cmd == Command::PlayPause {
                !old(self).time.paused
            } else {
                old(self).time.paused
            }),
            final(self).time.step == (if cmd == Command::Step {
                old(self).time.step || old(self).time.paused
            } else {
                old(self).time.step
            }),
            final(self).update.reset == (old(self).update.reset || cmd == Command::Reset),
            final(self).update.mouse == old(self).update.mouse,
            final(self).panel.show_self == (if cmd == Command::TogglePanel {
                !old(self).panel.show_self
            } else {
                old(self).panel.show_self
            }),
            final(self).panel.show_help == (if cmd == Command::ToggleHelp {
                !old(self).panel.show_help
            } else {
                old(self).panel.show_help
            }),
            final(self).panel.show_perf == (if cmd == Command::TogglePerf {
                !old(self).panel.show_perf
            } else {
                old(self).panel.show_perf
            }),
    {
        match cmd {
            Command::Exit => {
                return true;
            },
            Command::PlayPause => self.time.play_pause(),
            Command::Step => self.time.step(),
            Command::Reset => self.update.reset = true,
            Command::TogglePanel => self.panel.toggle_self(),
            Command::ToggleHelp => self.panel.toggle_help(),
            Command::TogglePerf => self.panel.toggle_perf(),
            Command::Nothing => {},
        }
        false
    }

    /// The cursor or a button changed: the mouse state is uploaded on the next frame.
    pub fn mouse_changed(&mut self)
        ensures
            final(self).update.mouse,
            final(self).update.reset == old(self).update.reset,
    {
        self.update.mouse = true;
    }
}

} // verus!
