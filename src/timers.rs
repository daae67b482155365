//! Timers: logical triggers that fire first at an offset after startup and
//! then, where the period is not zero, once per period.
//!
//! Periodicity is not a special case of the scheduler: a synthesized reaction
//! triggered by the timer schedules the timer's next event one period later.
use crate::ids::TriggerId;
use crate::time::{tag_lt, LogicalTime};
use vstd::prelude::*;

verus! {

/// A timer is conceptually a logical action that may re-schedule itself
/// periodically. Durations are in nanoseconds.
#[derive(Debug, Copy, Clone, PartialEq, Eq, Structural)]
pub struct Timer {
    pub id: TriggerId,
    /// Minimal duration after the start of the program after which the
    /// timer starts to trigger.
    pub offset: u64,
    /// Period between events emitted by this timer. A period of zero means
    /// that the timer triggers exactly once, after the offset.
    pub period: u64,
}

/// Instant of the `k`-th event of a timer started at `start`.
pub open spec fn timer_instant(start: u64, offset: u64, period: u64, k: nat) -> int {
    start + offset + k * period
}

impl Timer {
    pub fn new(id: TriggerId, offset: u64, period: u64) -> (r: Self)
        ensures
            r.id == id,
            r.offset == offset,
            r.period == period,
    {
        Timer { id, offset, period }
    }

    pub fn get_id(&self) -> (r: TriggerId)
        ensures
            r == self.id,
    {
        self.id
    }

    /// Whether the timer repeats itself.
    pub fn is_periodic(&self) -> (r: bool)
        ensures
            r == (self.period != 0),
    {
        self.period != 0
    }

    /// Whether the first event falls on the startup tag itself.
    pub fn fires_at_startup(&self) -> (r: bool)
        ensures
            r == (self.offset == 0),
    {
        self.offset == 0
    }

    /// Tag of the first event for a program started at `start`, where it
    /// does not fall on the startup tag; `None` where it leaves the clock.
    pub fn first_event(&self, start: LogicalTime) -> (r: Option<LogicalTime>)
        requires
            self.offset > 0,
        ensures
            start.instant + self.offset <= u64::MAX ==> r == Some(
                LogicalTime { instant: (start.instant + self.offset) as u64, microstep: 0 },
            ),
            start.instant + self.offset > u64::MAX ==> r is None,
    {
        if self.offset > u64::MAX - start.instant {
            None
        } else {
            Some(LogicalTime { instant: start.instant + self.offset, microstep: 0 })
        }
    }

    /// Tag of the event after one due at `due`: one period later, at
    /// microstep 0. `None` for a one-shot timer or where the tag leaves the
    /// clock.
    pub fn next_event(&self, due: LogicalTime) -> (r: Option<LogicalTime>)
        ensures
            self.period != 0 && due.instant + self.period <= u64::MAX ==> r == Some(
                LogicalTime { instant: (due.instant + self.period) as u64, microstep: 0 },
            ),
            self.period == 0 || due.instant + self.period > u64::MAX ==> r is None,
            r matches Some(t) ==> tag_lt(due, t),
    {
        if self.period == 0 || self.period > u64::MAX - due.instant {
            None
        } else {
            Some(LogicalTime { instant: due.instant + self.period, microstep: 0 })
        }
    }
}

/// Starting from the tag of its first event, a periodic timer rescheduled
/// `k` times by `next_event` is due at instant `start + offset + k * period`,
/// microstep 0: its events fall at the offset and then once per period.
pub proof fn lemma_timer_periodic(timer: Timer, start: u64, k: nat, due: LogicalTime)
    requires
        timer.period != 0,
        due == timer_tag(timer, start, k),
        timer_instant(start, timer.offset, timer.period, k) <= u64::MAX,
    ensures
        due.instant == timer_instant(start, timer.offset, timer.period, k),
        due.microstep == 0,
        timer_instant(start, timer.offset, timer.period, k + 1) <= u64::MAX ==> timer_tag(timer, start, k + 1)
            == (LogicalTime { instant: (due.instant + timer.period) as u64, microstep: 0 }),
    decreases k,
{
    if k > 0 {
        let p = timer.period as int;
        assert((k - 1) * p + p == k * p) by (nonlinear_arith);
        assert((k - 1) * p >= 0) by (nonlinear_arith)
            requires
                k > 0,
                p >= 0,
        ;
        assert(timer_instant(start, timer.offset, timer.period, (k - 1) as nat) + p == timer_instant(
            start,
            timer.offset,
            timer.period,
            k,
        ));
        lemma_timer_periodic(timer, start, (k - 1) as nat, timer_tag(timer, start, (k - 1) as nat));
    } else {
        assert(k * timer.period == 0) by (nonlinear_arith)
            requires
                k == 0,
        ;
    }
}

/// A wave due at the `k`-th event of a periodic timer, rescheduling it one
/// period after that due tag (`ReactionWave::reschedule_timer`), queues the
/// `(k+1)`-th event, at instant `start + offset + (k+1) * period`: however
/// late the waves run, the timer's events stay at the offset plus whole
/// periods.
pub proof fn lemma_timer_wave_chain(timer: Timer, start: u64, k: nat, next: LogicalTime)
    requires
        timer.period != 0,
        timer_instant(start, timer.offset, timer.period, k + 1) <= u64::MAX,
        next == (LogicalTime {
            instant: (timer_tag(timer, start, k).instant + timer.period) as u64,
            microstep: 0,
        }),
    ensures
        next == timer_tag(timer, start, k + 1),
        next.instant == timer_instant(start, timer.offset, timer.period, k + 1),
{
    assert(timer_instant(start, timer.offset, timer.period, k) <= timer_instant(
        start,
        timer.offset,
        timer.period,
        k + 1,
    )) by {
        let p = timer.period as int;
        assert((k + 1) * p == k * p + p) by (nonlinear_arith);
    }
    lemma_timer_periodic(timer, start, k, timer_tag(timer, start, k));
    lemma_timer_periodic(timer, start, k + 1, timer_tag(timer, start, k + 1));
}

/// The `k`-th event of a timer as `next_event` produces it from the first.
pub open spec fn timer_tag(timer: Timer, start: u64, k: nat) -> LogicalTime
    decreases k,
{
    if k == 0 {
        LogicalTime { instant: (start + timer.offset) as u64, microstep: 0 }
    } else {
        let prev = timer_tag(timer, start, (k - 1) as nat);
        LogicalTime { instant: (prev.instant + timer.period) as u64, microstep: 0 }
    }
}

} // verus!
