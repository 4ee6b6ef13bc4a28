//! The timer: it turns the time that has passed into the signals to let the
//! blocks fall, to spawn a block, and to let the focused block drift.
//!
//! Time is counted in whole units of the caller's choice, milliseconds for
//! one.
use vstd::prelude::*;

verus! {

/// What is due after a tick.
#[derive(Debug, Clone, Copy, PartialEq, Eq, Structural)]
pub struct Msg {
    pub should_spawn: bool,
    pub should_fall: bool,
    pub should_drift: bool,
}

impl Msg {
    #[inline]
    pub fn should_spawn(&self) -> (r: bool)
        ensures
            r == self.should_spawn,
    {
        self.should_spawn
    }

    #[inline]
    pub fn should_fall(&self) -> (r: bool)
        ensures
            r == self.should_fall,
    {
        self.should_fall
    }

    #[inline]
    pub fn should_drift(&self) -> (r: bool)
        ensures
            r == self.should_drift,
    {
        self.should_drift
    }
}

/// A countdown that stood at `left`, after `delta` units of time. It stops at
/// the least number that an `i64` holds.
pub open spec fn counted_down(left: int, delta: u32) -> int {
    if left - delta < i64::MIN {
        i64::MIN as int
    } else {
        left - delta
    }
}

/// What a timer holds: the three intervals, the falls left until the next
/// drift, the time left until the next fall and until the next spawn, and the
/// time that passed at the last tick.
pub struct TimerView {
    pub drift_interval: u8,
    pub fall_count: u8,
    pub fall_interval: u32,
    pub spawn_interval: u32,
    pub spawn_timer: int,
    pub fall_timer: int,
    pub last_delta: u32,
}

impl TimerView {
    /// A timer that has not ticked yet.
    pub open spec fn fresh(fall_interval: u32, spawn_interval: u32, drift_interval: u8) -> Self {
        TimerView {
            drift_interval,
            fall_count: drift_interval,
            fall_interval,
            spawn_interval,
            spawn_timer: spawn_interval as int,
            fall_timer: fall_interval as int,
            last_delta: 0,
        }
    }

    /// Whether a block spawns at a tick of `delta`: the time left until the
    /// next spawn has passed.
    pub open spec fn spawn_due(self, delta: u32) -> bool {
        counted_down(self.spawn_timer, delta) <= 0
    }

    /// Whether the blocks fall at a tick of `delta`: the time left until the
    /// next fall has passed.
    pub open spec fn fall_due(self, delta: u32) -> bool {
        counted_down(self.fall_timer, delta) <= 0
    }

    /// The falls left until the next drift, once a tick of `delta` has
    /// counted its fall.
    pub open spec fn falls_left(self, delta: u32) -> int {
        if self.fall_due(delta) && self.fall_count > 0 {
            self.fall_count - 1
        } else {
            self.fall_count as int
        }
    }

    /// Whether a tick of `delta` lets the focused block drift: no falls are
    /// left until the next drift.
    pub open spec fn drift_due(self, delta: u32) -> bool {
        self.falls_left(delta) == 0
    }

    /// What is due at a tick of `delta`.
    pub open spec fn signals(self, delta: u32) -> Msg {
        Msg {
            should_spawn: self.spawn_due(delta),
            should_fall: self.fall_due(delta),
            should_drift: self.drift_due(delta),
        }
    }

    /// The timer after a tick of `delta`. A countdown that has passed zero
    /// is set forth by its interval, once.
    pub open spec fn after_tick(self, delta: u32) -> Self {
        TimerView {
            spawn_timer: if self.spawn_due(delta) {
                counted_down(self.spawn_timer, delta) + self.spawn_interval
            } else {
                counted_down(self.spawn_timer, delta)
            },
            fall_timer: if self.fall_due(delta) {
                counted_down(self.fall_timer, delta) + self.fall_interval
            } else {
                counted_down(self.fall_timer, delta)
            },
            fall_count: if self.drift_due(delta) {
                self.drift_interval
            } else {
                self.falls_left(delta) as u8
            },
            last_delta: delta,
            ..self
        }
    }
}

#[derive(Debug, Clone, Copy, PartialEq, Eq)]
pub struct Timer {
    drift_interval: u8,
    fall_count: u8,
    fall_interval: u32,
    spawn_interval: u32,
    spawn_timer: i64,
    fall_timer: i64,
    last_delta: u32,
}

impl View for Timer {
    type V = TimerView;

    closed spec fn view(&self) -> TimerView {
        TimerView {
            drift_interval: self.drift_interval,
            fall_count: self.fall_count,
            fall_interval: self.fall_interval,
            spawn_interval: self.spawn_interval,
            spawn_timer: self.spawn_timer as int,
            fall_timer: self.fall_timer as int,
            last_delta: self.last_delta,
        }
    }
}

impl Timer {
    /// A timer that lets the blocks fall every `fall_interval`, spawns a block
    /// every `spawn_interval`, and lets the focused block drift at every
    /// `drift_interval`-th fall.
    #[inline]
    pub fn new(fall_interval: u32, spawn_interval: u32, drift_interval: u8) -> (r: Self)
        ensures
            r@ == TimerView::fresh(fall_interval, spawn_interval, drift_interval),
    {
        Self {
            drift_interval,
            fall_count: drift_interval,
            fall_interval,
            spawn_interval,
            spawn_timer: spawn_interval as i64,
            fall_timer: fall_interval as i64,
            last_delta: 0,
        }
    }

    /// The time that passed at the last tick.
    #[inline]
    pub fn last_delta(&self) -> (r: &u32)
        ensures
            *r == self@.last_delta,
    {
        &self.last_delta
    }

    /// Lets `delta_time` pass and says what is due.
    ///
    /// Both countdowns go down by `delta_time`. One that has passed zero is
    /// due and is set forth by its interval. A fall that is due counts
    /// towards the next drift, and when no falls are left until it the drift
    /// is due and the count starts again.
    pub fn tick(&mut self, delta_time: u32) -> (r: Msg)
        ensures
            r == old(self)@.signals(delta_time),
            final(self)@ == old(self)@.after_tick(delta_time),
    {
        self.last_delta = delta_time;
        self.fall_timer = count_down(self.fall_timer, delta_time);
        self.spawn_timer = count_down(self.spawn_timer, delta_time);
        let mut ret = Msg {
            should_spawn: self.spawn_timer <= 0,
            should_fall: self.fall_timer <= 0,
            should_drift: false,
        };
        if ret.should_spawn {
            self.spawn_timer += self.spawn_interval as i64;
        }
        if ret.should_fall {
            self.fall_timer += self.fall_interval as i64;
            if self.fall_count > 0 {
                self.fall_count -= 1;
            }
        }
        if self.fall_count == 0 {
            ret.should_drift = true;
            self.fall_count = self.drift_interval;
        }
        ret
    }
}

/// A countdown that stood at `left`, after `delta` units of time.
fn count_down(left: i64, delta: u32) -> (r: i64)
    ensures
        r == counted_down(left as int, delta),
{
    if left < i64::MIN + delta as i64 {
        i64::MIN
    } else {
        left - delta as i64
    }
}

} // verus!
