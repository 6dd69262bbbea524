//! Fail-fast bookkeeping: the stall watchdog's rule.
//!
//! Panic hooks can't catch hangs (no panic fires); the watchdog kills the
//! entire process when no progress is reported in time. Clocks and threads are
//! the runner's; what counts as a stall is decided here.

use vstd::prelude::*;

verus! {

/// Whole-process stall watchdog. Ping every step, look at it once in a while.
#[derive(Debug, Clone, Copy, PartialEq, Eq, Structural)]
pub struct Watchdog {
    /// When progress was last reported, in seconds.
    pub last_ping: u64,
    /// The last completed step.
    pub last_step: usize,
    pub timeout_secs: u64,
}

impl Watchdog {
    /// A watchdog that was last pinged at `now`.
    pub fn new(timeout_secs: u64, now: u64) -> (r: Self)
        ensures
            r == (Watchdog { last_ping: now, last_step: 0, timeout_secs }),
    {
        Watchdog { last_ping: now, last_step: 0, timeout_secs }
    }

    /// Reports the completion of `step` at `now`.
    pub fn ping_step(&mut self, step: usize, now: u64)
        ensures
            *final(self) == (Watchdog { last_ping: now, last_step: step, ..*old(self) }),
    {
        self.last_step = step;
        self.last_ping = now;
    }

    /// Seconds between two looks: half the timeout, five at least.
    pub fn poll_secs(&self) -> (r: u64)
        ensures
            r == if self.timeout_secs < 10 {
                5
            } else {
                self.timeout_secs / 2
            },
    {
        if self.timeout_secs < 10 {
            5
        } else {
            self.timeout_secs / 2
        }
    }

    /// How long nothing has been reported, if that is too long. A clock that
    /// runs backwards is no stall.
    pub fn stalled(&self, now: u64) -> (r: Option<u64>)
        ensures
            r == if now > self.last_ping && now - self.last_ping > self.timeout_secs {
                Some((now - self.last_ping) as u64)
            } else {
                None
            },
    {
        let idle: u64 = now.saturating_sub(self.last_ping);
        if idle > self.timeout_secs {
            Some(idle)
        } else {
            None
        }
    }
}

/// A stall is noticed at most one look after the timeout: between two looks
/// passes no more than half of it (or five seconds).
pub proof fn lemma_looks_are_frequent(w: Watchdog, poll: u64)
    requires
        poll == if w.timeout_secs < 10 {
            5
        } else {
            w.timeout_secs / 2
        },
    ensures
        poll >= 5,
        2 * poll <= w.timeout_secs || poll == 5,
{
}

} // verus!
