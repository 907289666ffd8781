//! When the compositor restarts its development shell. The process and the
//! connection are the caller's; this keeps the schedule and the generation
//! count. Times are nanoseconds on one clock.

use vstd::prelude::*;

verus! {

/// How long after the shell exits (or fails to start) it is started again:
/// 500 ms.
pub const RESTART_DELAY: u64 = 500_000_000;

/// The restart schedule of the development shell.
#[derive(Debug, PartialEq, Eq, Structural)]
pub struct ShellSchedule {
    /// When the shell is due to start again, if it is.
    pub restart_at: Option<u64>,
    /// How many times the shell was started.
    pub generation: u64,
}

/// The moment `RESTART_DELAY` after `now` (the clock's end if that is
/// later).
pub open spec fn restart_deadline(now: u64) -> u64 {
    if now + RESTART_DELAY <= u64::MAX {
        (now + RESTART_DELAY) as u64
    } else {
        u64::MAX
    }
}

impl Default for ShellSchedule {
    fn default() -> (schedule: Self)
        ensures
            schedule == (ShellSchedule { restart_at: None, generation: 0 }),
    {
        ShellSchedule { restart_at: None, generation: 0 }
    }
}

impl ShellSchedule {
    /// The shell exited at `now`: it starts again after the delay.
    pub fn exited(&mut self, now: u64)
        ensures
            *final(self) == (ShellSchedule {
                restart_at: Some(restart_deadline(now)),
                ..*old(self)
            }),
    {
        self.restart_at = Some(now.saturating_add(RESTART_DELAY));
    }

    /// Whether to start the shell again at `now`: its deadline has passed,
    /// no shell process or connection is left, and the shell's surfaces are
    /// gone.
    pub fn restart_is_due(&self, now: u64, running: bool, connected: bool, roles_are_clear: bool) -> (due:
        bool)
        ensures
            due == (self.restart_at matches Some(deadline) && now >= deadline && !running
                && !connected && roles_are_clear),
    {
        let deadline_passed = match self.restart_at {
            Some(deadline) => now >= deadline,
            None => false,
        };
        deadline_passed && !running && !connected && roles_are_clear
    }

    /// A start failed at `now`: it is tried again after the delay.
    pub fn start_failed(&mut self, now: u64)
        ensures
            *final(self) == (ShellSchedule {
                restart_at: Some(restart_deadline(now)),
                ..*old(self)
            }),
    {
        self.restart_at = Some(now.saturating_add(RESTART_DELAY));
    }

    /// The generation the next start gets.
    pub fn next_generation(&self) -> (generation: u64)
        requires
            self.generation < u64::MAX,
        ensures
            generation == self.generation + 1,
    {
        self.generation + 1
    }

    /// The shell started as `generation`: no restart is pending.
    pub fn started(&mut self, generation: u64)
        ensures
            *final(self) == (ShellSchedule { restart_at: None, generation }),
    {
        self.generation = generation;
        self.restart_at = None;
    }
}

} // verus!
