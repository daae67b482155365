//! The decisions of the event loop: when to sleep, which tag runs next and
//! with which reactions, and the events of physical actions. Waiting,
//! sleeping and delivering events across threads are left to the caller,
//! which hands the clock reading and the received events to these
//! functions.
//!
//! Reactions are identified by their position in the schedule's
//! topological order; a wave hands them out by increasing position.
use crate::assembler::ActionId;
use crate::event_queue::{Event, EventQueue};
use crate::ids::TriggerId;
use crate::schedule::Schedule;
use crate::time::{catch_up, eta_fits, spec_eta, tag_le, tag_lt, CatchUp, LogicalTime};
use crate::timers::Timer;
use crate::wave::{copy_positions, ReactionWave};
use vstd::prelude::*;

verus! {

/// What the event loop does next.
pub enum Step {
    /// No event can run: none is pending, or the microsteps of the
    /// current instant are used up.
    Idle,
    /// The earliest event is not due yet: sleep this many nanoseconds.
    Sleep(u64),
    /// Run this wave.
    Run(ReactionWave),
}

/// Tag at which a due event runs when the clock reads `now` and `last` was
/// the last tag run: the catch-up tag `(now, 0)`, moved to the next
/// microstep of `last` where the clock has not moved past it.
pub open spec fn run_tag(now: u64, last: Option<LogicalTime>) -> LogicalTime {
    let t = LogicalTime { instant: now, microstep: 0 };
    match last {
        Some(l) => if tag_lt(l, t) {
            t
        } else {
            LogicalTime { instant: l.instant, microstep: (l.microstep + 1) as u64 }
        },
        None => t,
    }
}

/// Some pending event of `q` due at `t` runs reaction `p`, a position
/// below `size`.
pub open spec fn due_in(q: Map<u64, Event>, t: LogicalTime, p: usize, size: nat) -> bool {
    exists|s: u64| #[trigger] q.contains_key(s) && q[s].process_at == t && q[s].todo@.contains(p) && p < size
}

/// `after` is `before` without the events due at `t`, and every event left
/// is due later.
pub open spec fn took_due_events(before: Map<u64, Event>, after: Map<u64, Event>, t: LogicalTime) -> bool {
    &&& forall|s: u64| #[trigger] after.contains_key(s) <==> before.contains_key(s)
        && before[s].process_at != t
    &&& forall|s: u64| #[trigger] after.contains_key(s) ==> after[s] == before[s] && tag_lt(t,
        after[s].process_at)
}

/// Timer `t` fires at startup (offset zero) and triggers the reaction at
/// position `p`.
pub open spec fn timer_starts(s: Schedule, t: Timer, p: usize) -> bool {
    t.offset == 0 && (t.id.0 as int) < s.spec_n_triggers() && s.spec_downstream(t.id.0 as int).contains(p)
}

/// The reaction at position `p` runs in the startup wave: startup or one of
/// the first `k` timers triggers it.
pub open spec fn startup_runs_upto(s: Schedule, timers: Seq<Timer>, p: usize, k: int) -> bool {
    s.spec_downstream(0).contains(p) || exists|j: int| 0 <= j < k && #[trigger] timer_starts(s, timers[j], p)
}

pub open spec fn startup_runs(s: Schedule, timers: Seq<Timer>, p: usize) -> bool {
    startup_runs_upto(s, timers, p, timers.len() as int)
}

/// `e` is the first event of timer `t` for a program started at `now`.
pub open spec fn first_timer_event(s: Schedule, t: Timer, now: u64, e: Event) -> bool {
    &&& t.offset > 0
    &&& e.process_at == (LogicalTime { instant: (now + t.offset) as u64, microstep: 0 })
    &&& now + t.offset <= u64::MAX
    &&& (t.id.0 as int) < s.spec_n_triggers() ==> e.todo@ == s.spec_downstream(t.id.0 as int)
}

/// Some event of `q` is the first event of timer `t`.
pub open spec fn timer_queued(q: Map<u64, Event>, s: Schedule, t: Timer, now: u64) -> bool {
    exists|k: u64| #[trigger] q.contains_key(k) && first_timer_event(s, t, now, q[k])
}

/// The scheduler's state: the pending events and the last tag it ran.
pub struct SyncScheduler {
    queue: EventQueue,
    schedule: Schedule,
    last: Option<LogicalTime>,
    stopped: bool,
}

impl SyncScheduler {
    pub closed spec fn spec_last(&self) -> Option<LogicalTime> {
        self.last
    }

    pub closed spec fn spec_queue(&self) -> EventQueue {
        self.queue
    }

    pub closed spec fn spec_schedule(&self) -> Schedule {
        self.schedule
    }

    pub closed spec fn spec_stopped(&self) -> bool {
        self.stopped
    }

    pub closed spec fn wf(&self) -> bool {
        &&& self.queue.wf()
        &&& self.schedule.wf()
        &&& self.schedule.node_count() <= usize::MAX - 63
        &&& self.schedule.spec_n_triggers() >= 1
        &&& self.last matches Some(l) ==> l.microstep < u64::MAX
    }

    /// A scheduler over `schedule`, with nothing pending and no tag run.
    pub fn new(schedule: Schedule) -> (r: Self)
        requires
            schedule.wf(),
            schedule.node_count() <= usize::MAX - 63,
        ensures
            r.wf(),
            r.spec_last() is None,
            r.spec_queue().is_empty_spec(),
            r.spec_queue().spec_next_serial() == 0,
            !r.spec_stopped(),
            r.spec_schedule() == schedule,
    {
        proof {
            schedule.lemma_trigger_count();
        }
        SyncScheduler { queue: EventQueue::new(), schedule, last: None, stopped: false }
    }

    pub fn schedule(&self) -> (r: &Schedule)
        ensures
            *r == self.spec_schedule(),
    {
        &self.schedule
    }

    /// Whether a shutdown request stopped the scheduler.
    pub fn is_stopped(&self) -> (r: bool)
        ensures
            r == self.spec_stopped(),
    {
        self.stopped
    }

    /// Receives an event for a later tag.
    pub fn push_event(&mut self, evt: Event) -> (r: bool)
        requires
            old(self).wf(),
        ensures
            final(self).wf(),
            final(self).spec_last() == old(self).spec_last(),
            final(self).spec_schedule() == old(self).spec_schedule(),
            final(self).spec_stopped() == old(self).spec_stopped(),
            r <==> old(self).spec_queue().spec_next_serial() < u64::MAX,
            r ==> final(self).spec_queue().spec_next_serial() == old(self).spec_queue().spec_next_serial() + 1,
            !r ==> final(self).spec_queue().spec_next_serial() == old(self).spec_queue().spec_next_serial(),
            r ==> exists|s: u64|
                !old(self).spec_queue().pending().contains_key(s) && final(self).spec_queue().pending()
                    == old(self).spec_queue().pending().insert(s, evt),
            !r ==> final(self).spec_queue().pending() == old(self).spec_queue().pending(),
    {
        let ghost e = evt;
        let r = self.queue.push(evt);
        proof {
            if r {
                let s = choose|s: u64|
                    !old(self).queue.pending().contains_key(s)
                        && self.queue.pending() == old(self).queue.pending().insert(
                        s,
                        e,
                    );
                assert(!old(self).spec_queue().pending().contains_key(s) && self.spec_queue().pending()
                    == old(self).spec_queue().pending().insert(s, evt));
            }
        }
        r
    }

    /// Starts the program at instant `now`: the startup wave runs the
    /// reactions of the startup trigger and of the timers whose offset is
    /// zero; the first events of the other timers are queued.
    pub fn start(&mut self, now: u64, timers: &Vec<Timer>) -> (r: ReactionWave)
        requires
            old(self).wf(),
            old(self).spec_last() is None,
        ensures
            final(self).wf(),
            final(self).spec_last() == Some(LogicalTime { instant: now, microstep: 0 }),
            final(self).spec_schedule() == old(self).spec_schedule(),
            final(self).spec_stopped() == old(self).spec_stopped(),
            r.wf(),
            r.tag() == (LogicalTime { instant: now, microstep: 0 }),
            r.spec_due() == r.tag(),
            r.spec_executed().len() == 0,
            r.spec_size() == old(self).spec_schedule().node_count(),
            forall|p: usize| #[trigger] r.pending().contains(p)
                <==> startup_runs(old(self).spec_schedule(), timers@, p),
            forall|s: u64| #[trigger] old(self).spec_queue().pending().contains_key(s)
                ==> final(self).spec_queue().pending().contains_key(s)
                && final(self).spec_queue().pending()[s] == old(self).spec_queue().pending()[s],
            forall|s: u64| #[trigger] final(self).spec_queue().pending().contains_key(s)
                && !old(self).spec_queue().pending().contains_key(s)
                ==> exists|j: int| 0 <= j < timers@.len() && #[trigger] first_timer_event(
                old(self).spec_schedule(),
                timers@[j],
                now,
                final(self).spec_queue().pending()[s],
            ),
            old(self).spec_queue().spec_next_serial() + timers@.len() <= u64::MAX ==> forall|j: int|
                0 <= j < timers@.len() && timers@[j].offset > 0 && now + timers@[j].offset <= u64::MAX
                    ==> #[trigger] timer_queued(
                    final(self).spec_queue().pending(),
                    old(self).spec_schedule(),
                    timers@[j],
                    now,
                ),
    {
        let tag = LogicalTime { instant: now, microstep: 0 };
        let mut wave = ReactionWave::new(tag, self.schedule.len());
        let startup = self.schedule.downstream(TriggerId(0));
        proof {
            self.schedule.lemma_trigger_count();
        }
        wave.enqueue_now(&startup);
        proof {
            assert forall|p: usize| #[trigger] wave.pending().contains(p)
                <==> startup_runs_upto(self.schedule, timers@, p, 0) by {
                if startup@.contains(p) {
                    let j = choose|j: int| 0 <= j < startup@.len() && startup@[j] == p;
                    assert(self.schedule.is_reaction_position(startup@[j] as int));
                }
            }
        }
        let mut i: usize = 0;
        while i < timers.len()
            invariant
                self.wf(),
                i <= timers.len(),
                tag == (LogicalTime { instant: now, microstep: 0 }),
                wave.wf(),
                wave.tag() == tag,
                wave.spec_due() == tag,
                wave.spec_executed().len() == 0,
                wave.spec_size() == self.schedule.node_count(),
                self.schedule == old(self).schedule,
                self.last == old(self).last,
                self.stopped == old(self).stopped,
                forall|p: usize| #[trigger] wave.pending().contains(p)
                    <==> startup_runs_upto(self.schedule, timers@, p, i as int),
                forall|s: u64| #[trigger] old(self).queue.pending().contains_key(s)
                    ==> self.queue.pending().contains_key(s)
                    && self.queue.pending()[s] == old(self).queue.pending()[s],
                forall|s: u64| #[trigger] self.queue.pending().contains_key(s)
                    && !old(self).queue.pending().contains_key(s)
                    ==> exists|j: int| 0 <= j < i && #[trigger] first_timer_event(
                    self.schedule,
                    timers@[j],
                    now,
                    self.queue.pending()[s],
                ),
                self.queue.spec_next_serial() <= old(self).queue.spec_next_serial() + i,
                old(self).queue.spec_next_serial() + timers@.len() <= u64::MAX ==> forall|j: int|
                    0 <= j < i && timers@[j].offset > 0 && now + timers@[j].offset <= u64::MAX
                        ==> #[trigger] timer_queued(self.queue.pending(), self.schedule, timers@[j], now),
            decreases timers.len() - i,
        {
            let t = timers[i];
            let d = self.schedule.downstream(t.id);
            let ghost q1 = self.queue.pending();
            let ghost mut queued_i = false;
            assert(t == timers@[i as int]);
            assert((t.id.0 as int) < self.schedule.spec_n_triggers()
                ==> d@ == self.schedule.spec_downstream(t.id.0 as int));
            if t.fires_at_startup() {
                wave.enqueue_now(&d);
            } else {
                match t.first_event(tag) {
                    Some(eta) => {
                        let e = wave.enqueue_later(&d, eta);
                        let ghost ev = e;
                        let pushed = self.queue.push(e);
                        proof {
                            if pushed {
                                let s = choose|s: u64| !q1.contains_key(s)
                                    && self.queue.pending() == q1.insert(s, ev);
                                assert(ev.todo@ == d@);
                                assert(ev.process_at == eta);
                                assert(t.offset > 0);
                                assert(tag.instant + t.offset <= u64::MAX);
                                assert(eta == LogicalTime { instant: (now + t.offset) as u64, microstep: 0 });
                                assert(first_timer_event(self.schedule, timers@[i as int], now, ev));
                                assert(self.queue.pending().contains_key(s) && self.queue.pending()[s] == ev);
                                assert(timer_queued(self.queue.pending(), self.schedule, timers@[i as int], now));
                                queued_i = true;
                                assert forall|s2: u64| #[trigger] self.queue.pending().contains_key(s2)
                                    && !old(self).queue.pending().contains_key(s2)
                                    implies exists|j: int| 0 <= j < i + 1 && #[trigger] first_timer_event(
                                    self.schedule,
                                    timers@[j],
                                    now,
                                    self.queue.pending()[s2],
                                ) by {
                                    if s2 == s {
                                        assert(first_timer_event(self.schedule, timers@[i as int],
                                            now, self.queue.pending()[s2]));
                                    } else {
                                        assert(q1.contains_key(s2) && self.queue.pending()[s2] == q1[s2]);
                                        let j = choose|j: int| 0 <= j < i && #[trigger] first_timer_event(
                                            self.schedule,
                                            timers@[j],
                                            now,
                                            q1[s2],
                                        );
                                        assert(0 <= j < i + 1);
                                    }
                                }
                            }
                        }
                    },
                    None => {},
                }
            }
            proof {
                if old(self).queue.spec_next_serial() + timers@.len() <= u64::MAX {
                    assert forall|j: int|
                        0 <= j < i + 1 && timers@[j].offset > 0 && now + timers@[j].offset <= u64::MAX
                            implies #[trigger] timer_queued(self.queue.pending(), self.schedule, timers@[j], now) by {
                        if j < i {
                            assert(timer_queued(q1, self.schedule, timers@[j], now));
                            let k = choose|k: u64| #[trigger] q1.contains_key(k)
                                && first_timer_event(self.schedule, timers@[j], now, q1[k]);
                            assert(self.queue.pending().contains_key(k) && self.queue.pending()[k] == q1[k]);
                        } else {
                            assert(queued_i);
                        }
                    }
                }
                assert forall|s2: u64| #[trigger] self.queue.pending().contains_key(s2)
                    && !old(self).queue.pending().contains_key(s2)
                    implies exists|j: int| 0 <= j < i + 1 && #[trigger] first_timer_event(
                    self.schedule,
                    timers@[j],
                    now,
                    self.queue.pending()[s2],
                ) by {
                    if q1.contains_key(s2) && self.queue.pending()[s2] == q1[s2] {
                        let j = choose|j: int| 0 <= j < i
                            && #[trigger] first_timer_event(self.schedule, timers@[j], now, q1[s2]);
                        assert(0 <= j < i + 1);
                    }
                }
                assert forall|p: usize| #[trigger] wave.pending().contains(p)
                    <==> startup_runs_upto(self.schedule, timers@, p, i + 1) by {
                    if d@.contains(p) {
                        let j = choose|j: int| 0 <= j < d@.len() && d@[j] == p;
                        assert(self.schedule.is_reaction_position(d@[j] as int));
                    }
                    assert(!wave.spec_executed().contains(p));
                    if timer_starts(self.schedule, timers@[i as int], p) {
                        assert(d@.contains(p));
                    }
                    if startup_runs_upto(self.schedule, timers@, p, i as int) {
                        if !self.schedule.spec_downstream(0).contains(p) {
                            let j = choose|j: int| 0 <= j < i
                                && #[trigger] timer_starts(self.schedule, timers@[j], p);
                            assert(0 <= j < i + 1 && timer_starts(self.schedule, timers@[j], p));
                        }
                    }
                    if startup_runs_upto(self.schedule, timers@, p, i + 1)
                        && !startup_runs_upto(self.schedule, timers@, p, i as int) {
                        let j = choose|j: int| 0 <= j < i + 1
                            && #[trigger] timer_starts(self.schedule, timers@[j], p);
                        assert(j == i);
                    }
                }
            }
            i = i + 1;
        }
        self.last = Some(tag);
        wave
    }

    /// The next step of the event loop when the clock reads `now`: idle
    /// once stopped or without pending events; sleep until the earliest
    /// pending tag's instant; or run, as one wave, every event of that tag
    /// at the catch-up tag, strictly after the last tag run.
    pub fn step(&mut self, now: u64) -> (r: Step)
        requires
            old(self).wf(),
        ensures
            final(self).wf(),
            final(self).spec_schedule() == old(self).spec_schedule(),
            final(self).spec_stopped() == old(self).spec_stopped(),
            old(self).spec_stopped() ==> r is Idle,
            old(self).spec_queue().is_empty_spec() ==> r is Idle,
            forall|t: LogicalTime|
                #[trigger] old(self).spec_queue().is_min_tag(t) && !old(self).spec_stopped() && now < t.instant
                    ==> (r matches Step::Sleep(d) && d == t.instant - now),
            forall|t: LogicalTime|
                #[trigger] old(self).spec_queue().is_min_tag(t) && !old(self).spec_stopped() && now >= t.instant
                    && run_tag(now, old(self).spec_last()).microstep < u64::MAX ==> r is Run,
            r is Idle || r is Sleep ==> final(self).spec_queue() == old(self).spec_queue()
                && final(self).spec_last()
                == old(self).spec_last(),
            r matches Step::Sleep(d) ==> exists|t: LogicalTime|
                old(self).spec_queue().is_min_tag(t) && now < t.instant && d == t.instant - now,
            r matches Step::Run(w) ==> {
                &&& w.wf()
                &&& w.spec_executed().len() == 0
                &&& w.spec_size() == old(self).spec_schedule().node_count()
                &&& final(self).spec_last() == Some(w.tag())
                &&& (old(self).spec_last() matches Some(l) ==> tag_lt(l, w.tag()))
                &&& w.tag() == run_tag(now, old(self).spec_last())
                &&& exists|t: LogicalTime|
                    old(self).spec_queue().is_min_tag(t) && now >= t.instant && w.spec_due() == t && took_due_events(
                        old(self).spec_queue().pending(),
                        final(self).spec_queue().pending(),
                        t,
                    ) && (forall|p: usize|
                        #[trigger] w.pending().contains(p) <==> due_in(
                            old(self).spec_queue().pending(),
                            t,
                            p,
                            w.spec_size(),
                        ))
            },
    {
        if self.stopped {
            return Step::Idle;
        }
        let target = match self.queue.peek_tag() {
            None => return Step::Idle,
            Some(t) => t,
        };
        proof {
            assert forall|t: LogicalTime| #[trigger] old(self).spec_queue().is_min_tag(t) implies t == target by {
                let s1 = choose|s1: u64| #[trigger] old(self).spec_queue().pending().contains_key(s1)
                    && old(self).spec_queue().pending()[s1].process_at == t;
                let s2 = choose|s2: u64| #[trigger] old(self).spec_queue().pending().contains_key(s2)
                    && old(self).spec_queue().pending()[s2].process_at == target;
                assert(tag_le(t, target));
                assert(tag_le(target, t));
            }
        }
        let tag0 = match catch_up(target, now) {
            CatchUp::Sleep(d) => {
                proof {
                    assert(old(self).spec_queue().is_min_tag(target) && now < target.instant
                        && d == target.instant
                        - now);
                }
                return Step::Sleep(d);
            },
            CatchUp::Process(t) => t,
        };
        let tag = match self.last {
            Some(l) => if l.lt(&tag0) {
                tag0
            } else {
                LogicalTime { instant: l.instant, microstep: l.microstep + 1 }
            },
            None => tag0,
        };
        if tag.microstep == u64::MAX {
            // the clock cannot go further within this instant
            return Step::Idle;
        }
        let mut wave = ReactionWave::new(tag, self.schedule.len());
        wave.set_due(target);
        let ghost q0 = self.queue;
        proof {
            self.queue.lemma_pending_finite();
        }
        loop
            invariant
                self.wf(),
                wave.wf(),
                wave.tag() == tag,
                wave.spec_due() == target,
                wave.spec_executed().len() == 0,
                wave.spec_size() == self.schedule.node_count(),
                self.schedule == old(self).schedule,
                self.last == old(self).last,
                self.stopped == old(self).stopped,
                q0 == old(self).queue,
                old(self).queue.is_min_tag(target),
                forall|s: u64| #[trigger] self.queue.pending().contains_key(s)
                    ==> old(self).queue.pending().contains_key(s)
                    && self.queue.pending()[s] == old(self).queue.pending()[s],
                forall|s: u64| #[trigger] old(self).queue.pending().contains_key(s)
                    && !self.queue.pending().contains_key(s)
                        ==> old(self).queue.pending()[s].process_at == target,
                self.queue.pending().dom().finite(),
                forall|p: usize| #[trigger] wave.pending().contains(p) <==> exists|s: u64|
                    #[trigger] old(self).queue.pending().contains_key(s)
                        && !self.queue.pending().contains_key(s)
                        && old(self).queue.pending()[s].todo@.contains(p) && p < wave.spec_size(),
            ensures
                forall|s: u64| #[trigger] self.queue.pending().contains_key(s)
                    ==> old(self).queue.pending().contains_key(s)
                    && self.queue.pending()[s] == old(self).queue.pending()[s],
                forall|s: u64| #[trigger] old(self).queue.pending().contains_key(s)
                    && !self.queue.pending().contains_key(s)
                        ==> old(self).queue.pending()[s].process_at == target,
                forall|p: usize| #[trigger] wave.pending().contains(p) <==> exists|s: u64|
                    #[trigger] old(self).queue.pending().contains_key(s)
                        && !self.queue.pending().contains_key(s)
                        && old(self).queue.pending()[s].todo@.contains(p) && p < wave.spec_size(),
                self.wf(),
                wave.wf(),
                wave.tag() == tag,
                wave.spec_due() == target,
                wave.spec_executed().len() == 0,
                wave.spec_size() == self.schedule.node_count(),
                self.schedule == old(self).schedule,
                self.last == old(self).last,
                self.stopped == old(self).stopped,
                forall|s: u64| #[trigger] self.queue.pending().contains_key(s) ==> tag_lt(
                    target,
                    self.queue.pending()[s].process_at,
                ),
            decreases self.queue.pending().dom().len(),
        {
            match self.queue.peek_tag() {
                Some(t) => {
                    if t != target {
                        proof {
                            assert forall|s: u64| #[trigger] self.queue.pending().contains_key(s) implies tag_lt(
                                target,
                                self.queue.pending()[s].process_at,
                            ) by {
                                assert(tag_le(target, self.queue.pending()[s].process_at));
                                if self.queue.pending()[s].process_at == target {
                                    assert(tag_le(t, target));
                                    let s2 = choose|s2: u64| #[trigger] self.queue.pending().contains_key(s2)
                                        && self.queue.pending()[s2].process_at == t;
                                    assert(tag_le(target, t));
                                }
                            }
                        }
                        break;
                    }
                },
                None => {
                    break;
                },
            }
            let ghost before = self.queue.pending();
            match self.queue.pop() {
                Some(e) => {
                    wave.enqueue_now(&e.todo);
                    proof {
                        self.queue.lemma_pending_finite();
                        let s = choose|s: u64| #[trigger] before.contains_key(s)
                            && before[s] == e && self.queue.pending() == before.remove(s);
                        assert(self.queue.pending().dom() =~= before.dom().remove(s));
                        assert forall|p: usize| #[trigger] wave.pending().contains(p) <==> exists|s2: u64|
                            #[trigger] old(self).queue.pending().contains_key(s2)
                                && !self.queue.pending().contains_key(s2)
                                && old(self).queue.pending()[s2].todo@.contains(p)
                                    && p < wave.spec_size() by {
                            if e.todo@.contains(p) && p < wave.spec_size() {
                                assert(old(self).queue.pending().contains_key(s)
                                    && !self.queue.pending().contains_key(s)
                                    && old(self).queue.pending()[s].todo@.contains(p));
                            }
                            if exists|s2: u64|
                                #[trigger] old(self).queue.pending().contains_key(s2)
                                    && !self.queue.pending().contains_key(s2)
                                    && old(self).queue.pending()[s2].todo@.contains(p)
                                        && p < wave.spec_size() {
                                let s2 = choose|s2: u64|
                                    #[trigger] old(self).queue.pending().contains_key(s2)
                                        && !self.queue.pending().contains_key(s2)
                                        && old(self).queue.pending()[s2].todo@.contains(p)
                                            && p < wave.spec_size();
                                if s2 != s {
                                    assert(!before.contains_key(s2));
                                }
                            }
                        }
                    }
                },
                None => {
                    break;
                },
            }
        }
        self.last = Some(tag);
        proof {
            assert(old(self).spec_queue().is_min_tag(target) && now >= target.instant);
            let q = old(self).queue.pending();
            assert forall|s: u64| #[trigger] self.queue.pending().contains_key(s) <==> q.contains_key(s)
                && q[s].process_at != target by {
                if q.contains_key(s) && q[s].process_at != target {
                    assert(self.queue.pending().contains_key(s));
                }
                if self.queue.pending().contains_key(s) {
                    assert(tag_lt(target, self.queue.pending()[s].process_at));
                }
            }
            assert forall|p: usize| #[trigger] wave.pending().contains(p) <==> due_in(q, target, p,
                wave.spec_size()) by {
                if due_in(q, target, p, wave.spec_size()) {
                    let s = choose|s: u64| #[trigger] q.contains_key(s)
                        && q[s].process_at == target && q[s].todo@.contains(p) && p < wave.spec_size();
                    assert(!self.queue.pending().contains_key(s));
                }
            }
        }
        Step::Run(wave)
    }

    /// Whether an idle loop whose inbound channel timed out may end: only
    /// with nothing pending, since an event left behind would never run.
    pub fn can_stop_on_timeout(&self) -> (r: bool)
        requires
            self.wf(),
        ensures
            r == self.spec_queue().is_empty_spec(),
    {
        self.queue.peek_tag().is_none()
    }

    /// Ends a wave: a shutdown it requested stops the scheduler.
    pub fn finish_wave(&mut self, wave: &ReactionWave)
        requires
            old(self).wf(),
        ensures
            final(self).wf(),
            final(self).spec_stopped() == (old(self).spec_stopped() || wave.spec_shutdown()),
            final(self).spec_last() == old(self).spec_last(),
            final(self).spec_queue() == old(self).spec_queue(),
            final(self).spec_schedule() == old(self).spec_schedule(),
    {
        if wave.shutdown_requested() {
            self.stopped = true;
        }
    }

    /// A link through which other threads schedule physical actions.
    pub fn link(&self) -> (r: SchedulerLink)
        requires
            self.wf(),
        ensures
            r.spec_n_triggers() == self.spec_schedule().spec_n_triggers(),
            forall|t: int| 0 <= t < r.spec_n_triggers()
                ==> #[trigger] r.spec_downstream(t) == self.spec_schedule().spec_downstream(t),
    {
        let n = self.schedule.trigger_count();
        let mut table: Vec<Vec<usize>> = Vec::new();
        let mut t: usize = 0;
        while t < n
            invariant
                self.wf(),
                n == self.schedule.spec_n_triggers(),
                n <= u32::MAX,
                t <= n,
                table.len() == t,
                forall|u: int| 0 <= u < t ==> (#[trigger] table@[u])@ == self.schedule.spec_downstream(u),
            decreases n - t,
        {
            let d = self.schedule.downstream(TriggerId(t as u32));
            table.push(d);
            t = t + 1;
        }
        SchedulerLink { table }
    }
}

/// Computes, for producers outside the event loop, the events of physical
/// actions. It holds the downstream reactions of every trigger.
pub struct SchedulerLink {
    table: Vec<Vec<usize>>,
}

impl SchedulerLink {
    pub closed spec fn spec_n_triggers(&self) -> nat {
        self.table@.len()
    }

    pub closed spec fn spec_downstream(&self, t: int) -> Seq<usize> {
        self.table@[t]@
    }

    /// The event of scheduling physical `action` with an extra delay
    /// `extra` (nanoseconds), given `last`, the last tag the event loop
    /// ran: due at the action's delay plus the extra one after `last`, and
    /// running the action's downstream reactions. `None` where that tag
    /// leaves the clock.
    pub fn schedule_physical(&self, action: &ActionId, extra: u64, last: LogicalTime) -> (r: Option<Event>)
        ensures
            eta_fits(last, (action.min_delay + extra) as nat) <==> r is Some,
            r matches Some(e) ==> e.process_at == spec_eta(last, (action.min_delay + extra) as nat)
                && e.process_at.instant >= last.instant + action.min_delay + extra && (action.id.0
                < self.spec_n_triggers()
                    ==> e.todo@ == self.spec_downstream(action.id.0 as int)) && (action.id.0
                >= self.spec_n_triggers() ==> e.todo@.len() == 0),
    {
        match last.make_eta(action.min_delay, extra) {
            None => None,
            Some(eta) => {
                let i = action.id.0 as usize;
                let todo = if i < self.table.len() {
                    copy_positions(&self.table[i])
                } else {
                    Vec::new()
                };
                Some(Event { process_at: eta, todo })
            },
        }
    }
}

} // verus!
