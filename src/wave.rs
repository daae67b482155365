//! The live execution of one tag: a worklist of reactions by position and
//! a `BitSet` of those already scheduled in it.
use crate::assembler::ActionId;
use crate::event_queue::Event;
use crate::ids::TriggerId;
use crate::graph::{node_number, DepGraph, EdgeKind};
use crate::schedule::{increasing, lemma_instant_edge_forward, Schedule};
use crate::toposort::is_topo_order;
use crate::time::{eta_fits, spec_eta, tag_lt, LogicalTime};
use crate::timers::Timer;
use bitset_fixed::BitSet;
use vstd::prelude::*;

verus! {

/// `bitset_fixed::BitSet`, opaque to verification.
#[verifier::external_type_specification]
#[verifier::external_body]
pub struct ExBitSet(BitSet);

/// The bits of a bit set, in order.
pub uninterp spec fn bits_of(b: BitSet) -> Seq<bool>;

/// Relies on `BitSet::new`: `size` bits, all zero.
#[verifier::external_body]
fn bitset_new(size: usize) -> (r: BitSet)
    requires
        size <= usize::MAX - 63,
    ensures
        bits_of(r) == Seq::new(size as nat, |i: int| false),
{
    BitSet::new(size)
}

/// Relies on indexing a `BitSet`: bit `i`.
#[verifier::external_body]
fn bitset_get(b: &BitSet, i: usize) -> (r: bool)
    requires
        i < bits_of(*b).len(),
    ensures
        r == bits_of(*b)[i as int],
{
    b[i]
}

/// Relies on `BitSet::set`: sets bit `i` to `v`.
#[verifier::external_body]
fn bitset_set(b: &mut BitSet, i: usize, v: bool)
    requires
        i < bits_of(*old(b)).len(),
    ensures
        bits_of(*final(b)) == bits_of(*old(b)).update(i as int, v),
{
    b.set(i, v)
}

/// Live execution of one tag: the reactions still to run, in increasing
/// position, and a mark for every reaction scheduled in this wave so far,
/// so that none runs twice.
pub struct ReactionWave {
    logical_time: LogicalTime,
    due: LogicalTime,
    todo: Vec<usize>,
    done: BitSet,
    size: usize,
    shutdown: bool,
    executed: Ghost<Seq<usize>>,
}

impl ReactionWave {
    pub closed spec fn tag(&self) -> LogicalTime {
        self.logical_time
    }

    /// The tag the wave's events asked for; the wave runs at `tag()`, which
    /// catch-up may have moved later.
    pub closed spec fn spec_due(&self) -> LogicalTime {
        self.due
    }

    /// Reactions still to run, by increasing position.
    pub closed spec fn pending(&self) -> Seq<usize> {
        self.todo@
    }

    /// Reactions handed out so far, in order.
    pub closed spec fn spec_executed(&self) -> Seq<usize> {
        self.executed@
    }

    pub closed spec fn spec_size(&self) -> nat {
        self.size as nat
    }

    pub closed spec fn spec_shutdown(&self) -> bool {
        self.shutdown
    }

    /// Reaction `p` was scheduled in this wave, pending or run.
    pub closed spec fn marked(&self, p: int) -> bool {
        bits_of(self.done)[p]
    }

    pub closed spec fn wf(&self) -> bool {
        &&& bits_of(self.done).len() == self.size
        &&& increasing(self.todo@)
        &&& forall|i: int| 0 <= i < self.todo@.len() ==> #[trigger] self.todo@[i] < self.size
        &&& self.executed@.no_duplicates()
        &&& forall|i: int| 0 <= i < self.executed@.len() ==> #[trigger] self.executed@[i] < self.size
        &&& forall|p: int|
            0 <= p < self.size ==> (#[trigger] bits_of(self.done)[p] <==> (self.todo@.contains(p as usize)
                || self.executed@.contains(p as usize)))
        &&& forall|p: usize| #[trigger] self.todo@.contains(p) ==> !self.executed@.contains(p)
    }

    /// An empty wave at `tag` over `size` reactions.
    pub fn new(tag: LogicalTime, size: usize) -> (r: Self)
        requires
            size <= usize::MAX - 63,
        ensures
            r.wf(),
            r.tag() == tag,
            r.spec_due() == tag,
            r.pending().len() == 0,
            r.spec_executed().len() == 0,
            r.spec_size() == size,
            !r.spec_shutdown(),
    {
        ReactionWave {
            logical_time: tag,
            due: tag,
            todo: Vec::new(),
            done: bitset_new(size),
            size,
            shutdown: false,
            executed: Ghost(Seq::empty()),
        }
    }

    pub fn logical_time(&self) -> (r: LogicalTime)
        ensures
            r == self.tag(),
    {
        self.logical_time
    }

    pub fn due_tag(&self) -> (r: LogicalTime)
        ensures
            r == self.spec_due(),
    {
        self.due
    }

    /// Records the tag the wave's events asked for.
    pub(crate) fn set_due(&mut self, due: LogicalTime)
        requires
            old(self).wf(),
        ensures
            final(self).wf(),
            final(self).spec_due() == due,
            final(self).tag() == old(self).tag(),
            final(self).pending() == old(self).pending(),
            final(self).spec_executed() == old(self).spec_executed(),
            final(self).spec_size() == old(self).spec_size(),
            final(self).spec_shutdown() == old(self).spec_shutdown(),
    {
        self.due = due;
    }

    /// The next event of periodic `timer`, one period after the tag this
    /// wave was due at (not the tag it runs at), so that catch-up delays do
    /// not accumulate; it runs the timer's downstream reactions. `None` for
    /// a one-shot timer or where the tag leaves the clock.
    pub fn reschedule_timer(&self, schedule: &Schedule, timer: &Timer) -> (r: Option<Event>)
        requires
            schedule.wf(),
        ensures
            (timer.period != 0 && self.spec_due().instant + timer.period <= u64::MAX) <==> r is Some,
            r matches Some(e) ==> e.process_at == (LogicalTime {
                instant: (self.spec_due().instant + timer.period) as u64,
                microstep: 0,
            }) && ((timer.id.0 as int) < schedule.spec_n_triggers() ==> e.todo@ == schedule.spec_downstream(
                timer.id.0 as int,
            )),
    {
        match timer.next_event(self.due) {
            None => None,
            Some(eta) => Some(Event { process_at: eta, todo: schedule.downstream(timer.id) }),
        }
    }

    /// Schedules the reactions at positions `downstream` to run later in
    /// this wave; those already scheduled or run in it, and positions out
    /// of range, are skipped.
    pub fn enqueue_now(&mut self, downstream: &Vec<usize>)
        requires
            old(self).wf(),
        ensures
            final(self).wf(),
            final(self).tag() == old(self).tag(),
            final(self).spec_due() == old(self).spec_due(),
            final(self).spec_size() == old(self).spec_size(),
            final(self).spec_shutdown() == old(self).spec_shutdown(),
            final(self).spec_executed() == old(self).spec_executed(),
            forall|p: usize|
                #[trigger] final(self).pending().contains(p) <==> old(self).pending().contains(p) || (
                downstream@.contains(p) && p < old(self).spec_size()
                    && !old(self).spec_executed().contains(p)),
    {
        let mut k: usize = 0;
        while k < downstream.len()
            invariant
                self.wf(),
                k <= downstream.len(),
                self.logical_time == old(self).logical_time,
                self.due == old(self).due,
                self.size == old(self).size,
                self.shutdown == old(self).shutdown,
                self.executed@ == old(self).executed@,
                forall|p: usize|
                    #[trigger] self.todo@.contains(p) <==> old(self).todo@.contains(p) || (exists|j: int|
                        0 <= j < k && downstream@[j] == p) && p < self.size && !self.executed@.contains(p),
            decreases downstream.len() - k,
        {
            let p = downstream[k];
            if p < self.size && !bitset_get(&self.done, p) {
                self.insert_sorted(p);
                bitset_set(&mut self.done, p, true);
            }
            proof {
                assert forall|q: usize|
                    #[trigger] self.todo@.contains(q) <==> old(self).todo@.contains(q) || (exists|j: int|
                        0 <= j < k + 1 && downstream@[j] == q) && q < self.size
                            && !self.executed@.contains(q) by {
                    if q == p && q < self.size && !self.executed@.contains(q) {
                        assert(downstream@[k as int] == q);
                    }
                    if exists|j: int| 0 <= j < k + 1 && downstream@[j] == q {
                        let j = choose|j: int| 0 <= j < k + 1 && downstream@[j] == q;
                        if j < k {
                        }
                    }
                }
            }
            k = k + 1;
        }
        proof {
            assert forall|p: usize|
                #[trigger] self.pending().contains(p) <==> old(self).pending().contains(p)
                    || (downstream@.contains(p)
                    && p < old(self).spec_size() && !old(self).spec_executed().contains(p)) by {
                if downstream@.contains(p) {
                    let j = choose|j: int| 0 <= j < downstream@.len() && downstream@[j] == p;
                }
            }
        }
    }

    /// Inserts an unmarked position into the pending list, keeping it
    /// increasing.
    fn insert_sorted(&mut self, p: usize)
        requires
            old(self).wf(),
            p < old(self).size,
            !bits_of(old(self).done)[p as int],
        ensures
            final(self).todo@.to_set() == old(self).todo@.to_set().insert(p),
            final(self).todo@.contains(p),
            forall|q: usize| #[trigger] final(self).todo@.contains(q)
                <==> old(self).todo@.contains(q) || q == p,
            increasing(final(self).todo@),
            forall|i: int| 0 <= i < final(self).todo@.len()
                ==> #[trigger] final(self).todo@[i] < final(self).size,
            final(self).done == old(self).done,
            final(self).size == old(self).size,
            final(self).logical_time == old(self).logical_time,
            final(self).due == old(self).due,
            final(self).shutdown == old(self).shutdown,
            final(self).executed == old(self).executed,
    {
        let mut j: usize = 0;
        while j < self.todo.len() && self.todo[j] < p
            invariant
                j <= self.todo.len(),
                self.todo@ == old(self).todo@,
                forall|i: int| 0 <= i < j ==> #[trigger] self.todo@[i] < p,
            decreases self.todo.len() - j,
        {
            j = j + 1;
        }
        proof {
            assert(!old(self).todo@.contains(p));
            if j < self.todo.len() {
                assert(self.todo@[j as int] != p);
            }
        }
        self.todo.insert(j, p);
        proof {
            let t = self.todo@;
            let o = old(self).todo@;
            assert forall|a: int, b: int| 0 <= a < b < t.len() implies t[a] < t[b] by {
                if b < j {
                } else if b == j {
                    assert(t[a] == o[a]);
                } else if a < j {
                    assert(t[b] == o[b - 1]);
                    if j < o.len() {
                        assert(o[j as int] > p);
                        if b - 1 > j {
                            assert(o[j as int] < o[b - 1]);
                        }
                    }
                } else if a == j {
                    assert(t[b] == o[b - 1]);
                    assert(o[j as int] > p);
                    if b - 1 > j {
                        assert(o[j as int] < o[b - 1]);
                    }
                } else {
                    assert(t[a] == o[a - 1]);
                    assert(t[b] == o[b - 1]);
                }
            }
            assert forall|q: usize| #[trigger] t.contains(q) <==> o.contains(q) || q == p by {
                if t.contains(q) {
                    let i = choose|i: int| 0 <= i < t.len() && t[i] == q;
                    if i < j {
                        assert(o[i] == q);
                    } else if i > j {
                        assert(o[i - 1] == q);
                    }
                }
                if o.contains(q) {
                    let i = choose|i: int| 0 <= i < o.len() && o[i] == q;
                    if i < j {
                        assert(t[i] == q);
                    } else {
                        assert(t[i + 1] == q);
                    }
                }
                if q == p {
                    assert(t[j as int] == p);
                }
            }
            assert(t.to_set() =~= o.to_set().insert(p));
        }
    }

    /// Hands out the pending reaction of least position, which leaves the
    /// pending list; `None` once the wave is exhausted.
    pub fn next_reaction(&mut self) -> (r: Option<usize>)
        requires
            old(self).wf(),
        ensures
            final(self).wf(),
            final(self).tag() == old(self).tag(),
            final(self).spec_due() == old(self).spec_due(),
            final(self).spec_size() == old(self).spec_size(),
            final(self).spec_shutdown() == old(self).spec_shutdown(),
            r is None <==> old(self).pending().len() == 0,
            r is None ==> final(self).spec_executed() == old(self).spec_executed(),
            r matches Some(p) ==> {
                &&& p == old(self).pending()[0]
                &&& forall|q: usize| #[trigger] old(self).pending().contains(q) ==> p <= q
                &&& !old(self).spec_executed().contains(p)
                &&& final(self).pending() == old(self).pending().remove(0)
                &&& final(self).spec_executed() == old(self).spec_executed().push(p)
            },
    {
        if self.todo.len() == 0 {
            return None;
        }
        let p = self.todo.remove(0);
        proof {
            let o = old(self).todo@;
            assert forall|q: usize| #[trigger] o.contains(q) implies p <= q by {
                let i = choose|i: int| 0 <= i < o.len() && o[i] == q;
                if i > 0 {
                    assert(o[0] < o[i]);
                }
            }
            assert(o.contains(p));
            self.executed@ = self.executed@.push(p);
            assert forall|q: usize| #[trigger] self.todo@.contains(q) implies !self.executed@.contains(q) by {
                let i = choose|i: int| 0 <= i < self.todo@.len() && self.todo@[i] == q;
                assert(o[i + 1] == q);
                assert(o[0] < o[i + 1]);
                assert(old(self).todo@.contains(q));
            }
            assert forall|x: int|
                0 <= x < self.size implies (#[trigger] bits_of(self.done)[x]
                    <==> (self.todo@.contains(x as usize)
                    || self.executed@.contains(x as usize))) by {
                assert(bits_of(old(self).done)[x] <==> (o.contains(x as usize)
                    || old(self).executed@.contains(
                    x as usize,
                )));
                if x as usize == p {
                    assert(self.executed@[self.executed@.len() - 1] == p);
                }
                if o.contains(x as usize) && x as usize != p {
                    let i = choose|i: int| 0 <= i < o.len() && o[i] == x as usize;
                    assert(self.todo@[i - 1] == x as usize);
                }
                if self.todo@.contains(x as usize) {
                    let i = choose|i: int| 0 <= i < self.todo@.len() && self.todo@[i] == x as usize;
                    assert(o[i + 1] == x as usize);
                }
                if self.executed@.contains(x as usize) && x as usize != p {
                    let i = choose|i: int| 0 <= i < self.executed@.len() && self.executed@[i] == x as usize;
                    assert(old(self).executed@[i] == x as usize);
                }
                if old(self).executed@.contains(x as usize) {
                    let i = choose|i: int| 0 <= i < old(self).executed@.len()
                        && old(self).executed@[i] == x as usize;
                    assert(self.executed@[i] == x as usize);
                }
            }
            assert forall|i: int| 0 <= i < self.executed@.len() implies #[trigger] self.executed@[i] < self.size by {
                if i < old(self).executed@.len() {
                    assert(self.executed@[i] == old(self).executed@[i]);
                }
            }
            assert forall|a: int,
                b: int| 0 <= a < b < self.todo@.len() implies self.todo@[a] < self.todo@[b] by {
                assert(self.todo@[a] == o[a + 1]);
                assert(self.todo@[b] == o[b + 1]);
            }
        }
        Some(p)
    }

    /// Setting `port` during this wave: its statically known downstream
    /// reactions run later in the same wave.
    pub fn set_port(&mut self, schedule: &Schedule, port: TriggerId)
        requires
            old(self).wf(),
            schedule.wf(),
        ensures
            final(self).wf(),
            final(self).tag() == old(self).tag(),
            final(self).spec_due() == old(self).spec_due(),
            final(self).spec_size() == old(self).spec_size(),
            final(self).spec_executed() == old(self).spec_executed(),
            port.0 < schedule.spec_n_triggers() ==> forall|p: usize|
                #[trigger] final(self).pending().contains(p) <==> old(self).pending().contains(p) || (
                schedule.spec_downstream(port.0 as int).contains(p) && p < old(self).spec_size()
                    && !old(self).spec_executed().contains(p)),
    {
        let d = schedule.downstream(port);
        self.enqueue_now(&d);
    }

    /// The event that runs `downstream` at `process_at`, a tag after this
    /// wave's.
    pub fn enqueue_later(&self, downstream: &Vec<usize>, process_at: LogicalTime) -> (r: Event)
        requires
            tag_lt(self.tag(), process_at),
        ensures
            r.process_at == process_at,
            r.todo@ == downstream@,
    {
        Event { process_at, todo: copy_positions(downstream) }
    }

    /// Scheduling a logical action with an extra delay (nanoseconds): the
    /// event of its downstream reactions at the action's delay plus the
    /// extra one after this wave's tag; `None` where that tag leaves the
    /// clock.
    pub fn schedule_action(&self, schedule: &Schedule, action: &ActionId, extra: u64) -> (r: Option<Event>)
        requires
            schedule.wf(),
        ensures
            eta_fits(self.tag(), (action.min_delay + extra) as nat) <==> r is Some,
            r matches Some(e) ==> e.process_at == spec_eta(self.tag(), (action.min_delay + extra) as nat)
                && tag_lt(self.tag(), e.process_at) && (action.id.0 < schedule.spec_n_triggers() ==> e.todo@
                == schedule.spec_downstream(action.id.0 as int)),
    {
        match self.logical_time.make_eta(action.min_delay, extra) {
            None => None,
            Some(eta) => {
                let d = schedule.downstream(action.id);
                Some(self.enqueue_later(&d, eta))
            },
        }
    }

    /// Asks that no wave start after this one.
    pub fn request_shutdown(&mut self)
        requires
            old(self).wf(),
        ensures
            final(self).wf(),
            final(self).spec_shutdown(),
            final(self).tag() == old(self).tag(),
            final(self).spec_due() == old(self).spec_due(),
            final(self).pending() == old(self).pending(),
            final(self).spec_executed() == old(self).spec_executed(),
    {
        self.shutdown = true;
    }

    pub fn shutdown_requested(&self) -> (r: bool)
        ensures
            r == self.spec_shutdown(),
    {
        self.shutdown
    }
}

/// Priority within one tag: where reaction `i` takes precedence over reaction
/// `j` (a priority edge, declaration order in one reactor) and both are
/// pending in a wave over a schedule of the graph, `i` is handed out first,
/// whatever order their triggers arrived in.
pub proof fn lemma_priority_in_wave(
    g: DepGraph,
    s: Schedule,
    w: ReactionWave,
    k: int,
    a: int,
    b: int,
    ia: int,
    ib: int,
)
    requires
        g.wf(),
        w.wf(),
        is_topo_order(g.n_nodes(), g.instant_edges(), s.spec_order()),
        0 <= k < g.spec_edges().len(),
        g.spec_edges()[k].kind == EdgeKind::Priority,
        0 <= a < g.n_nodes(),
        0 <= b < g.n_nodes(),
        s.spec_order()[a] == node_number(g.spec_triggers().len(), g.spec_edges()[k].from),
        s.spec_order()[b] == node_number(g.spec_triggers().len(), g.spec_edges()[k].to),
        0 <= ia < w.pending().len(),
        0 <= ib < w.pending().len(),
        w.pending()[ia] == a,
        w.pending()[ib] == b,
    ensures
        ia < ib,
        w.pending()[0] != b,
{
    lemma_instant_edge_forward(g, s.spec_order(), k, a, b);
    if ib <= ia {
        if ib < ia {
            assert(w.pending()[ib] < w.pending()[ia]);
        }
    }
    if w.pending()[0] == b && ia > 0 {
        assert(w.pending()[0] < w.pending()[ia]);
    }
}

/// No reaction fires twice in one wave: what a wave has handed out holds no
/// duplicate, and nothing pending was handed out already, however many
/// triggers enqueued the same reaction.
pub proof fn lemma_wave_no_duplicate_firing(w: ReactionWave)
    requires
        w.wf(),
    ensures
        w.spec_executed().no_duplicates(),
        w.pending().no_duplicates(),
        forall|p: usize| #[trigger] w.pending().contains(p) ==> !w.spec_executed().contains(p),
{
    assert forall|a: int, b: int| 0 <= a < w.pending().len() && 0 <= b < w.pending().len()
        && a != b implies w.pending()[a]
        != w.pending()[b] by {
        if a < b {
            assert(w.pending()[a] < w.pending()[b]);
        } else {
            assert(w.pending()[b] < w.pending()[a]);
        }
    }
}

pub(crate) fn copy_positions(v: &Vec<usize>) -> (r: Vec<usize>)
    ensures
        r@ == v@,
{
    let mut out: Vec<usize> = Vec::new();
    let mut i: usize = 0;
    while i < v.len()
        invariant
            i <= v.len(),
            out@ == v@.take(i as int),
        decreases v.len() - i,
    {
        out.push(v[i]);
        i = i + 1;
        proof {
            assert(out@ =~= v@.take(i as int));
        }
    }
    assert(v@.take(i as int) =~= v@);
    out
}

} // verus!
