//! Pending events, ordered by tag in a `PriorityQueue`.
use crate::time::{tag_le, LogicalTime};
use priority_queue::PriorityQueue;
use std::collections::HashMap;
use vstd::prelude::*;

verus! {

broadcast use vstd::std_specs::hash::group_hash_axioms;

/// `priority_queue::PriorityQueue`, opaque to verification.
#[verifier::external_type_specification]
#[verifier::external_body]
#[verifier::reject_recursive_types(I)]
#[verifier::reject_recursive_types(P)]
#[verifier::reject_recursive_types(H)]
pub struct ExPriorityQueue<I, P, H>(PriorityQueue<I, P, H>);

/// The queue's items and their priorities.
pub uninterp spec fn queue_entries(q: PriorityQueue<u64, (u64, u64)>) -> Map<u64, (u64, u64)>;

/// Lexicographic order on priorities, as `Ord` on tuples has it.
pub open spec fn prio_le(a: (u64, u64), b: (u64, u64)) -> bool {
    a.0 < b.0 || (a.0 == b.0 && a.1 <= b.1)
}

/// Relies on `PriorityQueue::new`: an empty queue.
#[verifier::external_body]
fn pq_new() -> (r: PriorityQueue<u64, (u64, u64)>)
    ensures
        queue_entries(r).dom() == Set::<u64>::empty(),
{
    PriorityQueue::new()
}

/// Relies on `PriorityQueue::push`: inserts the item, or updates the
/// priority of an equal item and returns the old one.
#[verifier::external_body]
fn pq_push(q: &mut PriorityQueue<u64, (u64, u64)>, item: u64, prio: (u64, u64)) -> (r: Option<(u64, u64)>)
    ensures
        queue_entries(*final(q)) == queue_entries(*old(q)).insert(item, prio),
        queue_entries(*old(q)).contains_key(item) ==> r == Some(queue_entries(*old(q))[item]),
        !queue_entries(*old(q)).contains_key(item) ==> r is None,
{
    q.push(item, prio)
}

/// Relies on `PriorityQueue::pop`: removes an item of greatest priority;
/// `None` on an empty queue.
#[verifier::external_body]
fn pq_pop(q: &mut PriorityQueue<u64, (u64, u64)>) -> (r: Option<(u64, (u64, u64))>)
    ensures
        r is None <==> queue_entries(*old(q)).dom() == Set::<u64>::empty(),
        r is None ==> queue_entries(*final(q)) == queue_entries(*old(q)),
        r matches Some((i, p)) ==> {
            &&& queue_entries(*old(q)).contains_key(i)
            &&& queue_entries(*old(q))[i] == p
            &&& queue_entries(*final(q)) == queue_entries(*old(q)).remove(i)
            &&& forall|j: u64| #[trigger] queue_entries(*old(q)).contains_key(j)
                ==> prio_le(queue_entries(*old(q))[j], p)
        },
{
    q.pop()
}

/// Relies on `PriorityQueue::peek`: an item of greatest priority, copied
/// out; `None` on an empty queue.
#[verifier::external_body]
fn pq_peek(q: &PriorityQueue<u64, (u64, u64)>) -> (r: Option<(u64, (u64, u64))>)
    ensures
        r is None <==> queue_entries(*q).dom() == Set::<u64>::empty(),
        r matches Some((i, p)) ==> {
            &&& queue_entries(*q).contains_key(i)
            &&& queue_entries(*q)[i] == p
            &&& forall|j: u64| #[trigger] queue_entries(*q).contains_key(j)
                ==> prio_le(queue_entries(*q)[j], p)
        },
{
    q.peek().map(|(i, p)| (*i, *p))
}

/// A tag plus the reactions (by position) due to run at it.
#[derive(Debug, PartialEq, Eq, Hash)]
pub struct Event {
    pub process_at: LogicalTime,
    pub todo: Vec<usize>,
}

/// Priority of a tag in the queue: earlier tags get greater priorities.
pub open spec fn tag_key(t: LogicalTime) -> (u64, u64) {
    ((u64::MAX - t.instant) as u64, (u64::MAX - t.microstep) as u64)
}

proof fn lemma_tag_key_order(a: LogicalTime, b: LogicalTime)
    ensures
        prio_le(tag_key(a), tag_key(b)) <==> tag_le(b, a),
        tag_key(a) == tag_key(b) <==> a == b,
{
}

/// Pending events, ordered by tag.
pub struct EventQueue {
    pq: PriorityQueue<u64, (u64, u64)>,
    events: HashMap<u64, Event>,
    next_serial: u64,
}

impl EventQueue {
    pub closed spec fn pending(&self) -> Map<u64, Event> {
        self.events@
    }

    pub closed spec fn wf(&self) -> bool {
        &&& queue_entries(self.pq).dom() == self.events@.dom()
        &&& forall|s: u64| #[trigger] self.events@.contains_key(s) ==> queue_entries(self.pq)[s] == tag_key(
            self.events@[s].process_at,
        ) && s < self.next_serial
    }

    /// Serial number the next pushed event gets.
    pub closed spec fn spec_next_serial(&self) -> u64 {
        self.next_serial
    }

    /// Finitely many events are pending.
    pub proof fn lemma_pending_finite(&self)
        ensures
            self.pending().dom().finite(),
    {
    }

    /// No pending event.
    pub open spec fn is_empty_spec(&self) -> bool {
        self.pending().dom() == Set::<u64>::empty()
    }

    /// `t` is the earliest tag of a pending event.
    pub open spec fn is_min_tag(&self, t: LogicalTime) -> bool {
        &&& exists|s: u64| #[trigger] self.pending().contains_key(s) && self.pending()[s].process_at == t
        &&& forall|s: u64| #[trigger] self.pending().contains_key(s) ==> tag_le(t,
            self.pending()[s].process_at)
    }

    pub fn new() -> (r: Self)
        ensures
            r.wf(),
            r.is_empty_spec(),
            r.spec_next_serial() == 0,
    {
        let r = EventQueue { pq: pq_new(), events: HashMap::new(), next_serial: 0 };
        assert(r.pending().dom() =~= Set::<u64>::empty());
        r
    }

    /// Adds an event. `false`, and nothing added, once the serial numbers
    /// are used up.
    pub fn push(&mut self, evt: Event) -> (r: bool)
        requires
            old(self).wf(),
        ensures
            final(self).wf(),
            r <==> old(self).spec_next_serial() < u64::MAX,
            r ==> final(self).spec_next_serial() == old(self).spec_next_serial() + 1,
            !r ==> final(self).spec_next_serial() == old(self).spec_next_serial(),
            r ==> exists|s: u64|
                !old(self).pending().contains_key(s)
                    && final(self).pending() == old(self).pending().insert(s, evt),
            !r ==> final(self).pending() == old(self).pending(),
    {
        let s = self.next_serial;
        if s == u64::MAX {
            return false;
        }
        let key = (u64::MAX - evt.process_at.instant, u64::MAX - evt.process_at.microstep);
        let ghost e = evt;
        pq_push(&mut self.pq, s, key);
        self.events.insert(s, evt);
        self.next_serial = s + 1;
        proof {
            assert(queue_entries(self.pq).dom() =~= self.events@.dom());
            assert(!old(self).pending().contains_key(s));
        }
        true
    }

    /// The earliest pending tag.
    pub fn peek_tag(&self) -> (r: Option<LogicalTime>)
        requires
            self.wf(),
        ensures
            r is None <==> self.is_empty_spec(),
            r matches Some(t) ==> self.is_min_tag(t),
    {
        match pq_peek(&self.pq) {
            None => None,
            Some((s, _)) => {
                match self.events.get(&s) {
                    Some(e) => {
                        proof {
                            assert(self.pending().contains_key(s)
                                && self.pending()[s].process_at == e.process_at);
                            assert forall|j: u64| #[trigger] self.pending().contains_key(j) implies tag_le(
                                e.process_at,
                                self.pending()[j].process_at,
                            ) by {
                                lemma_tag_key_order(self.pending()[j].process_at, e.process_at);
                            }
                        }
                        Some(e.process_at)
                    },
                    None => {
                        proof {
                            assert(false);
                        }
                        None
                    },
                }
            },
        }
    }

    /// Removes an event of the earliest tag.
    pub fn pop(&mut self) -> (r: Option<Event>)
        requires
            old(self).wf(),
        ensures
            final(self).wf(),
            final(self).spec_next_serial() == old(self).spec_next_serial(),
            r is None <==> old(self).is_empty_spec(),
            r is None ==> final(self).pending() == old(self).pending(),
            r matches Some(e) ==> old(self).is_min_tag(e.process_at) && exists|s: u64|
                #[trigger] old(self).pending().contains_key(s) && old(self).pending()[s] == e
                    && final(self).pending() == old(self).pending().remove(s),
    {
        match pq_pop(&mut self.pq) {
            None => None,
            Some((s, _)) => {
                match self.events.remove(&s) {
                    Some(e) => {
                        proof {
                            assert(queue_entries(self.pq).dom() =~= self.events@.dom());
                            assert forall|j: u64| #[trigger] old(self).pending().contains_key(j) implies tag_le(
                                e.process_at,
                                old(self).pending()[j].process_at,
                            ) by {
                                lemma_tag_key_order(old(self).pending()[j].process_at, e.process_at);
                            }
                        }
                        Some(e)
                    },
                    None => {
                        proof {
                            assert(false);
                        }
                        None
                    },
                }
            },
        }
    }
}

} // verus!
