//! Client-side session monitoring: tracks session age and idleness against
//! configured limits. One `monitor_session` call decides one polling step;
//! the caller sleeps between steps and acts on the decision.

use vstd::prelude::*;

use crate::session::{duration_since, spec_duration_since};

verus! {

/// `a - b`, stopping at zero.
pub open spec fn spec_sat_sub(a: u64, b: u64) -> u64 {
    if a >= b {
        (a - b) as u64
    } else {
        0
    }
}

/// Executable counterpart of [`spec_sat_sub`].
pub fn sat_sub(a: u64, b: u64) -> (r: u64)
    ensures
        r == spec_sat_sub(a, b),
{
    if a >= b {
        a - b
    } else {
        0
    }
}

/// Seconds before the timeout at which warnings start.
pub const WARNING_LEAD: u64 = 300;

/// Watches one session's lifetime and idleness.
pub struct SessionMonitor {
    /// When the session started.
    pub start_time: u64,
    /// Maximum session duration, in seconds.
    pub max_duration: u64,
    /// Time of last activity.
    pub last_activity: u64,
    /// Inactivity timeout, in seconds.
    pub inactivity_timeout: u64,
    /// Idle span after which warnings begin.
    pub warning_threshold: u64,
}

/// What one monitoring step decides.
#[derive(Debug, Clone, Copy, PartialEq, Eq, Structural)]
pub struct MonitorStep {
    /// The session is over: run the expiry action and stop monitoring.
    pub expire: bool,
    /// Warn that the maximum duration is near.
    pub warn_duration: bool,
    /// Warn that the inactivity timeout is near.
    pub warn_idle: bool,
    /// The `warned_duration` flag to carry into the next step.
    pub warned_duration: bool,
    /// The `warned_idle` flag to carry into the next step.
    pub warned_idle: bool,
}

/// The decision of one monitoring step, given the warning flags carried from
/// the previous step.
pub open spec fn spec_monitor_step(
    m: SessionMonitor,
    warned_duration: bool,
    warned_idle: bool,
    now: u64,
) -> MonitorStep {
    let session_duration = spec_duration_since(now, m.start_time);
    if session_duration >= m.max_duration {
        MonitorStep {
            expire: true,
            warn_duration: false,
            warn_idle: false,
            warned_duration,
            warned_idle,
        }
    } else {
        let wd = !warned_duration && session_duration >= spec_sat_sub(
            m.max_duration,
            WARNING_LEAD,
        );
        let idle = spec_duration_since(now, m.last_activity);
        if idle >= m.inactivity_timeout {
            MonitorStep {
                expire: true,
                warn_duration: wd,
                warn_idle: false,
                warned_duration: warned_duration || wd,
                warned_idle,
            }
        } else if !warned_idle && idle >= m.warning_threshold {
            MonitorStep {
                expire: false,
                warn_duration: wd,
                warn_idle: true,
                warned_duration: warned_duration || wd,
                warned_idle: true,
            }
        } else {
            MonitorStep {
                expire: false,
                warn_duration: wd,
                warn_idle: false,
                warned_duration: warned_duration || wd,
                warned_idle: warned_idle && idle >= m.warning_threshold,
            }
        }
    }
}

impl SessionMonitor {
    /// A monitor for a session starting at `now`, warning five minutes ahead
    /// of the inactivity timeout.
    pub fn new(max_duration: u64, inactivity_timeout: u64, now: u64) -> (m: SessionMonitor)
        ensures
            m.start_time == now,
            m.max_duration == max_duration,
            m.last_activity == now,
            m.inactivity_timeout == inactivity_timeout,
            m.warning_threshold == spec_sat_sub(inactivity_timeout, WARNING_LEAD),
    {
        SessionMonitor {
            start_time: now,
            max_duration,
            last_activity: now,
            inactivity_timeout,
            warning_threshold: sat_sub(inactivity_timeout, WARNING_LEAD),
        }
    }

    /// Records activity at `now`.
    pub fn update_activity(&mut self, now: u64)
        ensures
            *final(self) == (SessionMonitor { last_activity: now, ..*old(self) }),
    {
        self.last_activity = now;
    }

    /// Decides one monitoring step at `now`.
    pub fn monitor_session(&self, warned_duration: bool, warned_idle: bool, now: u64) -> (r:
        MonitorStep)
        ensures
            r == spec_monitor_step(*self, warned_duration, warned_idle, now),
    {
        let session_duration = duration_since(now, self.start_time);
        if session_duration >= self.max_duration {
            return MonitorStep {
                expire: true,
                warn_duration: false,
                warn_idle: false,
                warned_duration,
                warned_idle,
            };
        }
        let wd = !warned_duration && session_duration >= sat_sub(self.max_duration, WARNING_LEAD);
        let idle = duration_since(now, self.last_activity);
        if idle >= self.inactivity_timeout {
            MonitorStep {
                expire: true,
                warn_duration: wd,
                warn_idle: false,
                warned_duration: warned_duration || wd,
                warned_idle,
            }
        } else if !warned_idle && idle >= self.warning_threshold {
            MonitorStep {
                expire: false,
                warn_duration: wd,
                warn_idle: true,
                warned_duration: warned_duration || wd,
                warned_idle: true,
            }
        } else {
            MonitorStep {
                expire: false,
                warn_duration: wd,
                warn_idle: false,
                warned_duration: warned_duration || wd,
                warned_idle: warned_idle && idle >= self.warning_threshold,
            }
        }
    }

    /// Seconds since the session began.
    pub fn duration(&self, now: u64) -> (d: u64)
        ensures
            d == spec_duration_since(now, self.start_time),
    {
        duration_since(now, self.start_time)
    }

    /// Seconds since the last recorded activity.
    pub fn idle_time(&self, now: u64) -> (d: u64)
        ensures
            d == spec_duration_since(now, self.last_activity),
    {
        duration_since(now, self.last_activity)
    }

    /// Seconds left before the maximum duration.
    pub fn remaining_time(&self, now: u64) -> (d: u64)
        ensures
            d == spec_sat_sub(self.max_duration, spec_duration_since(now, self.start_time)),
    {
        sat_sub(self.max_duration, self.duration(now))
    }

    /// Seconds left before the inactivity timeout.
    pub fn remaining_idle_time(&self, now: u64) -> (d: u64)
        ensures
            d == spec_sat_sub(
                self.inactivity_timeout,
                spec_duration_since(now, self.last_activity),
            ),
    {
        sat_sub(self.inactivity_timeout, self.idle_time(now))
    }

    /// Renders a span of seconds as `..h ..m ..s`, dropping leading zero
    /// units.
    pub fn format_duration(duration: u64) -> (r: Vec<u8>)
        ensures
            r@ == spec_format_duration(duration),
    {
        let hours = duration / 3600;
        let minutes = (duration % 3600) / 60;
        let seconds = duration % 60;
        let mut out: Vec<u8> = Vec::new();
        proof {
            reveal_strlit("h ");
            reveal_strlit("m ");
            reveal_strlit("s");
            assert(("h ").is_ascii());
            assert(("m ").is_ascii());
            assert(("s").is_ascii());
        }
        if hours > 0 {
            crate::bytes::append_dec(&mut out, hours);
            crate::bytes::append_str(&mut out, "h ");
            crate::bytes::append_dec(&mut out, minutes);
            crate::bytes::append_str(&mut out, "m ");
            crate::bytes::append_dec(&mut out, seconds);
            crate::bytes::append_str(&mut out, "s");
        } else if minutes > 0 {
            crate::bytes::append_dec(&mut out, minutes);
            crate::bytes::append_str(&mut out, "m ");
            crate::bytes::append_dec(&mut out, seconds);
            crate::bytes::append_str(&mut out, "s");
        } else {
            crate::bytes::append_dec(&mut out, seconds);
            crate::bytes::append_str(&mut out, "s");
        }
        proof {
            assert(out@ =~= spec_format_duration(duration));
        }
        out
    }
}

/// The `..h ..m ..s` rendering of a span of seconds.
pub open spec fn spec_format_duration(duration: u64) -> Seq<u8> {
    let hours = duration / 3600;
    let minutes = (duration % 3600) / 60;
    let seconds = duration % 60;
    if hours > 0 {
        crate::bytes::dec_digits(hours as nat) + crate::bytes::ascii("h "@) + crate::bytes::dec_digits(
            minutes as nat,
        ) + crate::bytes::ascii("m "@) + crate::bytes::dec_digits(seconds as nat)
            + crate::bytes::ascii("s"@)
    } else if minutes > 0 {
        crate::bytes::dec_digits(minutes as nat) + crate::bytes::ascii("m "@)
            + crate::bytes::dec_digits(seconds as nat) + crate::bytes::ascii("s"@)
    } else {
        crate::bytes::dec_digits(seconds as nat) + crate::bytes::ascii("s"@)
    }
}

} // verus!
