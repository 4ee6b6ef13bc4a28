//! The settings of a game.
use vstd::prelude::*;

verus! {

/// The size of the board, how a game starts, and how fast it runs. The
/// intervals of falling and spawning are lengths of time, in the units that
/// the ticks are counted in; the interval of drifting is a number of falls.
#[derive(Debug, Clone, Copy, PartialEq, Eq, Structural)]
pub struct Settings {
    pub width: u8,
    pub height: u8,
    pub starts_with_one: bool,
    pub starts_with_splash: bool,
    pub fall_interval: u32,
    pub spawn_interval: u32,
    pub drift_interval: u8,
}

impl Settings {
    pub fn with_width(self, val: u8) -> (r: Self)
        ensures
            r == (Settings { width: val, ..self }),
    {
        Settings { width: val, ..self }
    }

    pub fn with_height(self, val: u8) -> (r: Self)
        ensures
            r == (Settings { height: val, ..self }),
    {
        Settings { height: val, ..self }
    }

    pub fn with_starts_with_one(self, val: bool) -> (r: Self)
        ensures
            r == (Settings { starts_with_one: val, ..self }),
    {
        Settings { starts_with_one: val, ..self }
    }

    pub fn with_starts_with_splash(self, val: bool) -> (r: Self)
        ensures
            r == (Settings { starts_with_splash: val, ..self }),
    {
        Settings { starts_with_splash: val, ..self }
    }

    pub fn with_fall_interval(self, val: u32) -> (r: Self)
        ensures
            r == (Settings { fall_interval: val, ..self }),
    {
        Settings { fall_interval: val, ..self }
    }

    pub fn with_spawn_interval(self, val: u32) -> (r: Self)
        ensures
            r == (Settings { spawn_interval: val, ..self }),
    {
        Settings { spawn_interval: val, ..self }
    }

    pub fn with_drift_interval(self, val: u8) -> (r: Self)
        ensures
            r == (Settings { drift_interval: val, ..self }),
    {
        Settings { drift_interval: val, ..self }
    }
}

/// The settings of a game that nobody has set: a board of 12 by 16 cells with
/// a first block on it; a fall every 100 units of time, a spawn every 4000,
/// and a drift at every eighth fall.
pub open spec fn default_settings() -> Settings {
    Settings {
        width: 12,
        height: 16,
        starts_with_one: true,
        starts_with_splash: false,
        spawn_interval: 4_000,
        fall_interval: 100,
        drift_interval: 8,
    }
}

impl Default for Settings {
    fn default() -> (r: Self)
        ensures
            r == default_settings(),
    {
        Self {
            width: 12,
            height: 16,
            starts_with_one: true,
            starts_with_splash: false,
            spawn_interval: 4_000,
            fall_interval: 100,
            drift_interval: 8,
        }
    }
}

} // verus!
