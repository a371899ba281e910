//! The alarm of a Durable Object.

use vstd::prelude::*;

verus! {

/// The alarm of an object: when it is due, and how often that was changed.
///
/// Every change starts a new generation, so that a timer that was started for an earlier one can
/// tell that it no longer counts.
#[derive(Debug)]
pub struct AlarmScheduler {
    alarm: Option<i64>,
    generation: u64,
}

/// A timer to start: when it is due, and for which generation.
#[derive(Debug, Clone, Copy, PartialEq, Eq)]
pub struct Timer {
    /// When the alarm is due, in milliseconds since the epoch.
    pub scheduled_time_ms: i64,
    /// The generation that must still be current when the timer elapses.
    pub generation: u64,
}

/// The generation after another.
pub open spec fn next_generation(generation: u64) -> u64 {
    if generation == u64::MAX {
        0
    } else {
        (generation + 1) as u64
    }
}

fn bump(generation: u64) -> (r: u64)
    ensures
        r == next_generation(generation),
{
    if generation == u64::MAX {
        0
    } else {
        generation + 1
    }
}

impl AlarmScheduler {
    /// When the alarm is due, if it is set.
    pub closed spec fn due(&self) -> Option<i64> {
        self.alarm
    }

    /// The current generation.
    pub closed spec fn current(&self) -> u64 {
        self.generation
    }

    /// No alarm.
    pub fn new() -> (r: Self)
        ensures
            r.due() is None,
            r.current() == 0,
    {
        AlarmScheduler { alarm: None, generation: 0 }
    }

    /// When the alarm is due, if it is set.
    pub fn get_alarm(&self) -> (r: Option<i64>)
        ensures
            r == self.due(),
    {
        self.alarm
    }

    /// Set the alarm; the timer to start for it is returned.
    pub fn set_alarm(&mut self, scheduled_time_ms: i64) -> (r: Timer)
        ensures
            final(self).due() == Some(scheduled_time_ms),
            final(self).current() == next_generation(old(self).current()),
            r.scheduled_time_ms == scheduled_time_ms,
            r.generation == final(self).current(),
    {
        self.alarm = Some(scheduled_time_ms);
        self.generation = bump(self.generation);
        Timer { scheduled_time_ms, generation: self.generation }
    }

    /// Delete the alarm; timers that were started no longer count.
    pub fn delete_alarm(&mut self)
        ensures
            final(self).due() is None,
            final(self).current() == next_generation(old(self).current()),
    {
        self.alarm = None;
        self.generation = bump(self.generation);
    }

    /// Whether the alarm goes off now that a timer of a generation elapsed. It does where the
    /// generation is current and the alarm is still set; it is then no longer set.
    pub fn timer_elapsed(&mut self, generation: u64) -> (r: bool)
        ensures
            r == (old(self).current() == generation && old(self).due() is Some),
            final(self).current() == old(self).current(),
            final(self).due() == if r {
                None
            } else {
                old(self).due()
            },
    {
        if self.generation != generation || self.alarm.is_none() {
            return false;
        }
        self.alarm = None;
        true
    }
}

/// How long a timer sleeps, in milliseconds.
pub fn timer_delay(scheduled_time_ms: i64, now_ms: i64) -> (r: u64)
    ensures
        r == if scheduled_time_ms > now_ms {
            scheduled_time_ms - now_ms
        } else {
            0
        },
{
    if scheduled_time_ms > now_ms {
        ((scheduled_time_ms as i128) - (now_ms as i128)) as u64
    } else {
        0
    }
}

/// The time of a clock in milliseconds since the epoch: 0 where the clock is set before the epoch,
/// and as large as can be where it is too far after it.
pub fn current_unix_ms(since_epoch: Option<u128>) -> (r: i64)
    ensures
        r == match since_epoch {
            Some(millis) => if millis <= i64::MAX {
                millis as int
            } else {
                i64::MAX as int
            },
            None => 0,
        },
{
    match since_epoch {
        Some(millis) => if millis <= i64::MAX as u128 {
            millis as i64
        } else {
            i64::MAX
        },
        None => 0,
    }
}

/// The generation after some changes.
pub open spec fn generation_after(generation: u64, changes: nat) -> u64
    decreases changes,
{
    if changes == 0 {
        generation
    } else {
        next_generation(generation_after(generation, (changes - 1) as nat))
    }
}

proof fn lemma_generation_counts(generation: u64, changes: nat)
    ensures
        generation_after(generation, changes) == (generation + changes) % 0x1_0000_0000_0000_0000,
    decreases changes,
{
    if changes > 0 {
        lemma_generation_counts(generation, (changes - 1) as nat);
    }
}

/// A timer is superseded by every later change, short of as many as there are generations: its
/// generation is not current again.
pub proof fn a_later_change_supersedes_a_timer(generation: u64, changes: nat)
    requires
        0 < changes <= u64::MAX,
    ensures
        generation_after(generation, changes) != generation,
{
    lemma_generation_counts(generation, changes);
}

} // verus!
