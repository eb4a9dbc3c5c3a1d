//! Sleeping until a deadline, and ticks at a fixed interval that keep to their
//! schedule, whenever they are polled. Instants and durations are nanoseconds.
//!
//! A poll is told the current time; when it has to wait, the caller registers the
//! waker under the deadline, arms the timer interrupt, and looks at the clock once
//! more with [`SleepUntil::after_arm`].

use vstd::prelude::*;

verus! {

/// What a poll of a sleep comes to.
#[derive(Debug, Clone, Copy, PartialEq, Eq, Structural)]
pub enum SleepPoll {
    /// The deadline has passed.
    Ready,
    /// Still asleep; the waker was registered before.
    Pending,
    /// Register the waker under `deadline` and arm the timer for it, then check the
    /// clock again.
    Arm { deadline: u64 },
}

/// A sleep until `deadline`.
#[derive(Debug, Clone, Copy, PartialEq, Eq, Structural)]
pub struct SleepUntil {
    deadline: u64,
    sleeping: bool,
}

impl SleepUntil {
    pub closed spec fn spec_deadline(&self) -> u64 {
        self.deadline
    }

    /// Has the waker been registered?
    pub closed spec fn is_sleeping(&self) -> bool {
        self.sleeping
    }

    pub fn new(deadline: u64) -> (r: Self)
        ensures
            r.spec_deadline() == deadline,
            !r.is_sleeping(),
    {
        SleepUntil { deadline, sleeping: false }
    }

    pub fn deadline(&self) -> (r: u64)
        ensures
            r == self.spec_deadline(),
    {
        self.deadline
    }

    /// A poll at time `now`: ready once the deadline is reached; the first poll
    /// before it arms the timer, the later ones wait.
    pub fn poll(&mut self, now: u64) -> (r: SleepPoll)
        ensures
            final(self).spec_deadline() == old(self).spec_deadline(),
            now >= old(self).spec_deadline() ==> r == SleepPoll::Ready && final(self).is_sleeping() == old(
                self,
            ).is_sleeping(),
            now < old(self).spec_deadline() && old(self).is_sleeping() ==> r == SleepPoll::Pending
                && final(self).is_sleeping(),
            now < old(self).spec_deadline() && !old(self).is_sleeping() ==> r == (SleepPoll::Arm {
                deadline: old(self).spec_deadline(),
            }) && final(self).is_sleeping(),
    {
        if now >= self.deadline {
            return SleepPoll::Ready;
        }
        if self.sleeping {
            return SleepPoll::Pending;
        }
        self.sleeping = true;
        SleepPoll::Arm { deadline: self.deadline }
    }

    /// The clock reading after arming, at time `now`: ready when the deadline passed in the
    /// meantime.
    pub fn after_arm(&self, now: u64) -> (r: bool)
        ensures
            r == (now >= self.spec_deadline()),
    {
        now >= self.deadline
    }
}

/// A sleep of `dur` from `now`.
pub fn sleep(now: u64, dur: u64) -> (r: SleepUntil)
    requires
        now + dur <= u64::MAX,
    ensures
        r.spec_deadline() == now + dur,
        !r.is_sleeping(),
{
    SleepUntil::new(now + dur)
}

/// Ticks every `interval` from a start.
pub struct Ticks {
    interval: u64,
    next: SleepUntil,
}

impl Ticks {
    pub closed spec fn spec_interval(&self) -> u64 {
        self.interval
    }

    /// The deadline of the next tick.
    pub closed spec fn next_deadline(&self) -> u64 {
        self.next.spec_deadline()
    }

    pub closed spec fn next_sleeping(&self) -> bool {
        self.next.is_sleeping()
    }

    /// A poll of the next tick at time `now`: when it is ready, the tick after it is
    /// due one interval after its deadline, however late this poll came.
    pub fn poll_next(&mut self, now: u64) -> (r: SleepPoll)
        requires
            old(self).next_deadline() + old(self).spec_interval() <= u64::MAX,
        ensures
            final(self).spec_interval() == old(self).spec_interval(),
            now >= old(self).next_deadline() ==> r == SleepPoll::Ready && final(self).next_deadline()
                == old(self).next_deadline() + old(self).spec_interval() && !final(self).next_sleeping(),
            now < old(self).next_deadline() ==> final(self).next_deadline() == old(self).next_deadline() && r
                == if old(self).next_sleeping() {
                SleepPoll::Pending
            } else {
                SleepPoll::Arm { deadline: old(self).next_deadline() }
            } && final(self).next_sleeping(),
    {
        let r = self.next.poll(now);
        if let SleepPoll::Ready = r {
            self.next = SleepUntil::new(self.next.deadline() + self.interval);
        }
        r
    }
}

/// Ticks every `interval`, the first one `interval` after `now`.
pub fn ticks(now: u64, interval: u64) -> (r: Ticks)
    requires
        now + interval <= u64::MAX,
    ensures
        r.spec_interval() == interval,
        r.next_deadline() == now + interval,
        !r.next_sleeping(),
{
    Ticks { interval, next: SleepUntil::new(now + interval) }
}

/// Ticks keep to their schedule: whenever the polls come, the `k`-th tick that is
/// ready moves the next deadline to `k + 1` intervals after the start.
pub proof fn lemma_ticks_keep_schedule(start: u64, interval: u64, k: nat, before: Ticks, after: Ticks)
    requires
        before.spec_interval() == interval,
        before.next_deadline() == start + (k + 1) * interval,
        after.spec_interval() == interval,
        after.next_deadline() == before.next_deadline() + before.spec_interval(),
    ensures
        after.next_deadline() == start + (k + 2) * interval,
{
    assert(start + (k + 1) * interval + interval == start + (k + 2) * interval) by (nonlinear_arith);
}

} // verus!
