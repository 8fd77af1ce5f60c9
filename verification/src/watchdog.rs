//! The watchdog that puts the scheme back when something else resets it.
//!
//! The thread, the hidden listener window and the waits live with the
//! caller; what the watchdog decides on each wake is decided here, from its
//! configuration and what the caller observed.

use vstd::prelude::*;
use crate::channel::guards_pointer_by_default;

verus! {

/// The shortest interval between checks, in seconds.
pub const MIN_INTERVAL_SECS: u64 = 1;

/// The longest interval between checks, in seconds.
pub const MAX_INTERVAL_SECS: u64 = 300;

/// `PBT_APMRESUMEAUTOMATIC`: the machine woke without a user.
pub const RESUME_AUTOMATIC: usize = 0x0012;

/// `PBT_APMRESUMESUSPEND`: the machine woke for a user.
pub const RESUME_SUSPEND: usize = 0x0007;

/// A broadcast the listener window received.
#[derive(Debug, Clone, Copy, PartialEq, Eq, Structural)]
pub enum Broadcast {
    /// `WM_SETTINGCHANGE`: a theme or personalisation change.
    SettingChange,
    /// `WM_POWERBROADCAST`, with its event code.
    Power(usize),
    /// Anything else.
    Other,
}

/// What the watchdog does on a wake.
#[derive(Debug, Clone, Copy, PartialEq, Eq, Structural)]
pub enum Tick {
    /// Leave the loop: a stop was asked for.
    Stop,
    /// Put the committed scheme back.
    Reapply,
    /// Nothing to do until the next wake.
    Wait,
}

/// The watchdog's settings and whether it has been told to stop.
pub struct Watchdog {
    enabled: bool,
    interval_secs: u64,
    on_theme_change: bool,
    on_resume: bool,
    stopping: bool,
}

impl Watchdog {
    #[verifier::type_invariant]
    spec fn interval_in_range(self) -> bool {
        MIN_INTERVAL_SECS <= self.interval_secs <= MAX_INTERVAL_SECS
    }

    pub closed spec fn is_enabled(self) -> bool {
        self.enabled
    }

    pub closed spec fn interval(self) -> u64 {
        self.interval_secs
    }

    pub closed spec fn wakes_on_theme_change(self) -> bool {
        self.on_theme_change
    }

    pub closed spec fn wakes_on_resume(self) -> bool {
        self.on_resume
    }

    pub closed spec fn is_stopping(self) -> bool {
        self.stopping
    }

    /// Enabled, checking every five seconds, woken by theme changes and by
    /// resume.
    pub fn new() -> (w: Watchdog)
        ensures
            w.is_enabled(),
            w.interval() == 5,
            w.wakes_on_theme_change(),
            w.wakes_on_resume(),
            !w.is_stopping(),
    {
        Watchdog { enabled: true, interval_secs: 5, on_theme_change: true, on_resume: true, stopping: false }
    }

    /// Applies the user's settings, holding the interval to 1-300 seconds.
    pub fn configure(&mut self, enabled: bool, interval_secs: u64, on_theme_change: bool, on_resume: bool)
        ensures
            final(self).is_enabled() == enabled,
            final(self).interval() == (if interval_secs < MIN_INTERVAL_SECS {
                MIN_INTERVAL_SECS
            } else if interval_secs > MAX_INTERVAL_SECS {
                MAX_INTERVAL_SECS
            } else {
                interval_secs
            }),
            final(self).wakes_on_theme_change() == on_theme_change,
            final(self).wakes_on_resume() == on_resume,
            final(self).is_stopping() == old(self).is_stopping(),
    {
        let interval = if interval_secs < MIN_INTERVAL_SECS {
            MIN_INTERVAL_SECS
        } else if interval_secs > MAX_INTERVAL_SECS {
            MAX_INTERVAL_SECS
        } else {
            interval_secs
        };
        let stopping = self.stopping;
        *self = Watchdog { enabled, interval_secs: interval, on_theme_change, on_resume, stopping };
    }

    /// Stops the watchdog acting, without touching the user's setting: used
    /// on the way into an update, when the files it would point Windows at
    /// are being replaced.
    pub fn disable(&mut self)
        ensures
            !final(self).is_enabled(),
            final(self).interval() == old(self).interval(),
            final(self).wakes_on_theme_change() == old(self).wakes_on_theme_change(),
            final(self).wakes_on_resume() == old(self).wakes_on_resume(),
            final(self).is_stopping() == old(self).is_stopping(),
    {
        proof {
            use_type_invariant(&*self);
        }
        let w = Watchdog {
            enabled: false,
            interval_secs: self.interval_secs,
            on_theme_change: self.on_theme_change,
            on_resume: self.on_resume,
            stopping: self.stopping,
        };
        *self = w;
    }

    /// Asks the watchdog to stop for good; it also stands down at once. The
    /// request is one way: nothing here clears it.
    pub fn stop(&mut self)
        ensures
            final(self).is_stopping(),
            !final(self).is_enabled(),
            final(self).interval() == old(self).interval(),
            final(self).wakes_on_theme_change() == old(self).wakes_on_theme_change(),
            final(self).wakes_on_resume() == old(self).wakes_on_resume(),
    {
        proof {
            use_type_invariant(&*self);
        }
        let w = Watchdog {
            enabled: false,
            interval_secs: self.interval_secs,
            on_theme_change: self.on_theme_change,
            on_resume: self.on_resume,
            stopping: true,
        };
        *self = w;
    }

    /// Whether the watchdog acts when it wakes.
    pub fn enabled(&self) -> (b: bool)
        ensures
            b == self.is_enabled(),
    {
        self.enabled
    }

    /// Seconds between checks.
    pub fn interval_secs(&self) -> (s: u64)
        ensures
            s == self.interval(),
            MIN_INTERVAL_SECS <= s <= MAX_INTERVAL_SECS,
    {
        proof {
            use_type_invariant(self);
        }
        self.interval_secs
    }

    /// Whether a stop has been asked for.
    pub fn stopping(&self) -> (b: bool)
        ensures
            b == self.is_stopping(),
    {
        self.stopping
    }

    /// How long to park between checks, in milliseconds.
    pub fn timeout_ms(&self) -> (ms: u32)
        ensures
            ms == self.interval() * 1000,
    {
        proof {
            use_type_invariant(self);
        }
        (self.interval_secs * 1000) as u32
    }

    /// Whether a broadcast should bring the next check forward: a theme
    /// change when that trigger is on, a resume from sleep when that one is.
    pub fn nudged_by(&self, event: Broadcast) -> (b: bool)
        ensures
            b == match event {
                Broadcast::SettingChange => self.wakes_on_theme_change(),
                Broadcast::Power(code) => self.wakes_on_resume() && (code == RESUME_AUTOMATIC || code == RESUME_SUSPEND),
                Broadcast::Other => false,
            },
    {
        match event {
            Broadcast::SettingChange => self.on_theme_change,
            Broadcast::Power(code) => self.on_resume && (code == RESUME_AUTOMATIC || code == RESUME_SUSPEND),
            Broadcast::Other => false,
        }
    }

    /// Whether this build asks for the pointer lock on a wake at all: the
    /// development channel never does, so it never defends the scheme.
    pub fn asks_for_pointer(&self) -> (b: bool)
        ensures
            b == !crate::channel::IS_DEV,
    {
        guards_pointer_by_default()
    }

    /// What to do on a wake. `claimed` is whether this process holds the
    /// pointer lock (false when it did not ask), `drifted` whether the
    /// registry no longer holds what was committed.
    ///
    /// A stop wins over everything; the scheme is put back only by the
    /// process that holds the pointer, while enabled, and only when it has
    /// drifted — which is what keeps two installed channels from reverting
    /// each other for ever.
    pub fn tick(&self, claimed: bool, drifted: bool) -> (t: Tick)
        ensures
            t == (if self.is_stopping() {
                Tick::Stop
            } else if !crate::channel::IS_DEV && claimed && self.is_enabled() && drifted {
                Tick::Reapply
            } else {
                Tick::Wait
            }),
    {
        if self.stopping {
            Tick::Stop
        } else if guards_pointer_by_default() && claimed && self.enabled && drifted {
            Tick::Reapply
        } else {
            Tick::Wait
        }
    }
}

} // verus!
