//! Logical time: tags `(instant, microstep)` ordered lexicographically.
//!
//! Instants are nanoseconds on the program's physical clock, counted from an
//! origin that the caller chooses (usually the start of the program).
use vstd::prelude::*;

verus! {

/// A tag: the full logical timestamp of an event.
#[derive(Debug, Copy, Clone, PartialEq, Eq, Structural, Hash)]
pub struct LogicalTime {
    /// Nanoseconds since the origin of the clock.
    pub instant: u64,
    /// Index of the step within one instant.
    pub microstep: u64,
}

/// Lexicographic strict order on tags.
pub open spec fn tag_lt(a: LogicalTime, b: LogicalTime) -> bool {
    a.instant < b.instant || (a.instant == b.instant && a.microstep < b.microstep)
}

pub open spec fn tag_le(a: LogicalTime, b: LogicalTime) -> bool {
    tag_lt(a, b) || a == b
}

/// Tag of a delayed trigger scheduled at `now` with a total delay of `delay`
/// nanoseconds: a positive delay lands at microstep 0 of a later instant, a
/// zero delay at the next microstep of the same instant.
pub open spec fn spec_eta(now: LogicalTime, delay: nat) -> LogicalTime {
    if delay == 0 {
        LogicalTime { instant: now.instant, microstep: (now.microstep + 1) as u64 }
    } else {
        LogicalTime { instant: (now.instant + delay) as u64, microstep: 0 }
    }
}

pub open spec fn eta_fits(now: LogicalTime, delay: nat) -> bool {
    if delay == 0 {
        now.microstep < u64::MAX
    } else {
        now.instant + delay <= u64::MAX
    }
}

impl LogicalTime {
    pub fn new(instant: u64, microstep: u64) -> (r: Self)
        ensures
            r.instant == instant,
            r.microstep == microstep,
    {
        LogicalTime { instant, microstep }
    }

    /// The tag at the very start of the clock.
    pub fn zero() -> (r: Self)
        ensures
            r.instant == 0,
            r.microstep == 0,
    {
        LogicalTime { instant: 0, microstep: 0 }
    }

    /// Whether `self` comes strictly before `other`.
    pub fn lt(&self, other: &LogicalTime) -> (r: bool)
        ensures
            r == tag_lt(*self, *other),
    {
        self.instant < other.instant || (self.instant == other.instant && self.microstep
            < other.microstep)
    }

    /// Tag of an action with minimal delay `min_delay` scheduled at `self`
    /// with an extra delay `extra` (all in nanoseconds); `None` where the
    /// tag leaves the range of the clock.
    pub fn make_eta(&self, min_delay: u64, extra: u64) -> (r: Option<LogicalTime>)
        ensures
            eta_fits(*self, (min_delay + extra) as nat) ==> r == Some(spec_eta(*self,
                (min_delay + extra) as nat)),
            !eta_fits(*self, (min_delay + extra) as nat) ==> r is None,
    {
        if extra > u64::MAX - min_delay {
            return None;
        }
        let delay = min_delay + extra;
        if delay == 0 {
            if self.microstep == u64::MAX {
                None
            } else {
                Some(LogicalTime { instant: self.instant, microstep: self.microstep + 1 })
            }
        } else if delay > u64::MAX - self.instant {
            None
        } else {
            Some(LogicalTime { instant: self.instant + delay, microstep: 0 })
        }
    }
}

/// A scheduled tag lies strictly after the tag it was scheduled from, and
/// no earlier than that instant plus the delay.
pub proof fn lemma_eta_after(now: LogicalTime, delay: nat)
    requires
        eta_fits(now, delay),
    ensures
        tag_lt(now, spec_eta(now, delay)),
        spec_eta(now, delay).instant >= now.instant + delay,
{
}

/// What the event loop does before it processes an event due at some tag.
#[derive(Debug, Copy, Clone, PartialEq, Eq, Structural)]
pub enum CatchUp {
    /// The clock has not reached the event's instant yet: sleep this many
    /// nanoseconds, then sample the clock again.
    Sleep(u64),
    /// Process the event at this tag.
    Process(LogicalTime),
}

pub open spec fn spec_catch_up(target: LogicalTime, now: u64) -> CatchUp {
    if now < target.instant {
        CatchUp::Sleep((target.instant - now) as u64)
    } else {
        CatchUp::Process(LogicalTime { instant: now, microstep: 0 })
    }
}

/// Scheduling with delay `delay` from the last tag `last` yields an event no
/// earlier than `last.instant + delay`, and the event loop sleeps before it
/// exactly while the clock has not reached that instant.
pub proof fn lemma_physical_catch_up(last: LogicalTime, delay: nat, now: u64)
    requires
        eta_fits(last, delay),
    ensures
        spec_eta(last, delay).instant >= last.instant + delay,
        tag_lt(last, spec_eta(last, delay)),
        spec_catch_up(spec_eta(last, delay), now) is Sleep <==> now < spec_eta(last, delay).instant,
        spec_catch_up(spec_eta(last, delay), now) matches CatchUp::Process(t)
            ==> t.instant >= last.instant + delay,
{
}

/// Couples logical time to physical time: an event due at `target` is
/// processed at the current instant `now`, microstep 0, once the clock has
/// reached the target instant; before that the loop sleeps for the rest.
pub fn catch_up(target: LogicalTime, now: u64) -> (r: CatchUp)
    ensures
        r == spec_catch_up(target, now),
{
    if now < target.instant {
        CatchUp::Sleep(target.instant - now)
    } else {
        CatchUp::Process(LogicalTime { instant: now, microstep: 0 })
    }
}

} // verus!
