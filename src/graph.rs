//! The dependency graph over triggers and reactions, and its consumption
//! into an executable schedule.
//!
//! Nodes are the triggers (indexed by their raw [`TriggerId`]) and the
//! reactions (indexed in the order they were recorded). Edges of every kind
//! but `Triggers` relate two nodes at the same logical instant; a `Triggers`
//! edge does too when its source is a port or port bank, while one whose
//! source is an action, a timer or startup carries a positive logical delay.
use crate::ids::{GlobalReactionId, ReactorId, TriggerId};
use vstd::prelude::*;

verus! {

/// Direction of a port.
#[derive(Debug, Copy, Clone, PartialEq, Eq, Structural)]
pub enum PortKind {
    Input,
    Output,
}

/// What a trigger is.
#[derive(Debug, Copy, Clone, PartialEq, Eq, Structural)]
pub enum TriggerKind {
    Startup,
    Port(PortKind),
    PortBank(PortKind),
    LogicalAction,
    PhysicalAction,
    Timer,
}

/// A recorded trigger and the reactor that declared it.
#[derive(Debug, Copy, Clone, PartialEq, Eq, Structural)]
pub struct TriggerInfo {
    pub kind: TriggerKind,
    pub owner: ReactorId,
}

/// Kinds of dependency edges.
#[derive(Debug, Copy, Clone, PartialEq, Eq, Structural)]
pub enum EdgeKind {
    /// trigger -> reaction: the trigger fires the reaction.
    Triggers,
    /// trigger -> reaction: the reaction reads the trigger's current value.
    Uses,
    /// reaction -> trigger: the reaction may set or schedule the trigger.
    Effects,
    /// reaction -> reaction: the first takes precedence at one tag.
    Priority,
    /// port -> port: values of the first are forwarded to the second.
    Binding,
    /// bank -> channel: the channel belongs to the bank.
    BankMember,
}

/// A node of the graph.
#[derive(Debug, Copy, Clone, PartialEq, Eq, Structural)]
pub enum DepNode {
    Trigger(usize),
    Reaction(usize),
}

#[derive(Debug, Copy, Clone, PartialEq, Eq, Structural)]
pub struct DepEdge {
    pub kind: EdgeKind,
    pub from: DepNode,
    pub to: DepNode,
}

/// The dependency graph under construction.
pub struct DepGraph {
    triggers: Vec<TriggerInfo>,
    reactions: Vec<GlobalReactionId>,
    edges: Vec<DepEdge>,
}

pub open spec fn is_port_like(k: TriggerKind) -> bool {
    k is Port || k is PortBank
}

/// Number of the node in the combined numbering: triggers first, then
/// reactions.
pub open spec fn node_number(n_triggers: nat, x: DepNode) -> int {
    match x {
        DepNode::Trigger(t) => t as int,
        DepNode::Reaction(i) => n_triggers + i,
    }
}

pub open spec fn node_in_range(n_triggers: nat, n_reactions: nat, x: DepNode) -> bool {
    match x {
        DepNode::Trigger(t) => t < n_triggers,
        DepNode::Reaction(i) => i < n_reactions,
    }
}

/// The pairs that `f` selects from `es`, in order.
pub open spec fn collect_pairs(es: Seq<DepEdge>, f: spec_fn(DepEdge) -> Option<(usize, usize)>) -> Seq<
    (usize, usize),
>
    decreases es.len(),
{
    if es.len() == 0 {
        Seq::empty()
    } else {
        let prev = collect_pairs(es.drop_last(), f);
        match f(es.last()) {
            Some(p) => prev.push(p),
            None => prev,
        }
    }
}

/// Every pair that `f` selects from an edge of `es` is collected.
pub proof fn lemma_collect_pairs_contains(es: Seq<DepEdge>, f: spec_fn(DepEdge) -> Option<(usize,
    usize)>, k: int)
    requires
        0 <= k < es.len(),
        f(es[k]) is Some,
    ensures
        collect_pairs(es, f).contains(f(es[k])->Some_0),
    decreases es.len(),
{
    let prev = collect_pairs(es.drop_last(), f);
    if k == es.len() - 1 {
        let p = f(es.last())->Some_0;
        assert(collect_pairs(es, f) == prev.push(p));
        assert(prev.push(p)[prev.len() as int] == p);
    } else {
        assert(es.drop_last()[k] == es[k]);
        lemma_collect_pairs_contains(es.drop_last(), f, k);
        let p = f(es[k])->Some_0;
        let j = choose|j: int| 0 <= j < prev.len() && prev[j] == p;
        match f(es.last()) {
            Some(q) => {
                assert(prev.push(q)[j] == p);
            },
            None => {},
        }
    }
}

/// Same-instant edge, as a pair of node numbers.
pub open spec fn instant_pair(triggers: Seq<TriggerInfo>, e: DepEdge) -> Option<(usize, usize)> {
    let same_instant = match e.kind {
        EdgeKind::Triggers => match e.from {
            DepNode::Trigger(t) => 0 <= t < triggers.len() && is_port_like(triggers[t as int].kind),
            DepNode::Reaction(_) => true,
        },
        _ => true,
    };
    if same_instant {
        Some(
            (
                node_number(triggers.len(), e.from) as usize,
                node_number(triggers.len(), e.to) as usize,
            ),
        )
    } else {
        None
    }
}

/// Forwarding edge (binding or bank membership), as a pair of triggers.
pub open spec fn forward_pair(e: DepEdge) -> Option<(usize, usize)> {
    match (e.kind, e.from, e.to) {
        (EdgeKind::Binding, DepNode::Trigger(a), DepNode::Trigger(b)) => Some((a, b)),
        (EdgeKind::BankMember, DepNode::Trigger(a), DepNode::Trigger(b)) => Some((a, b)),
        _ => None,
    }
}

/// Trigger edge, as a pair (trigger, reaction index).
pub open spec fn trigger_pair(e: DepEdge) -> Option<(usize, usize)> {
    match (e.kind, e.from, e.to) {
        (EdgeKind::Triggers, DepNode::Trigger(t), DepNode::Reaction(i)) => Some((t, i)),
        _ => None,
    }
}

/// Reaction `i` fires when trigger `t` is set: `t` triggers it, or `t`
/// forwards (within `fuel` forwarding steps) to a trigger that does.
pub open spec fn fires(fwd: Seq<(usize, usize)>, trig: Seq<(usize, usize)>, t: usize, i: usize,
    fuel: nat) -> bool
    decreases fuel,
{
    trig.contains((t, i)) || (fuel > 0 && exists|k: int|
        0 <= k < fwd.len() && (#[trigger] fwd[k]).0 == t && fires(fwd, trig, fwd[k].1, i, (fuel - 1) as nat))
}

impl DepGraph {
    pub closed spec fn spec_triggers(&self) -> Seq<TriggerInfo> {
        self.triggers@
    }

    pub closed spec fn spec_reactions(&self) -> Seq<GlobalReactionId> {
        self.reactions@
    }

    pub closed spec fn spec_edges(&self) -> Seq<DepEdge> {
        self.edges@
    }

    pub open spec fn n_nodes(&self) -> nat {
        self.spec_triggers().len() + self.spec_reactions().len()
    }

    /// The startup trigger stands first, and every edge joins recorded nodes.
    pub open spec fn wf(&self) -> bool {
        &&& self.spec_triggers().len() >= 1
        &&& self.spec_triggers()[0].kind == TriggerKind::Startup
        &&& self.spec_triggers().len() <= u32::MAX
        &&& self.n_nodes() <= usize::MAX
        &&& forall|k: int|
            0 <= k < self.spec_edges().len() ==> node_in_range(
                self.spec_triggers().len(),
                self.spec_reactions().len(),
                (#[trigger] self.spec_edges()[k]).from,
            ) && node_in_range(
                self.spec_triggers().len(),
                self.spec_reactions().len(),
                self.spec_edges()[k].to,
            )
    }

    pub open spec fn instant_edges(&self) -> Seq<(usize, usize)> {
        collect_pairs(self.spec_edges(), |e: DepEdge| instant_pair(self.spec_triggers(), e))
    }

    pub open spec fn forward_edges(&self) -> Seq<(usize, usize)> {
        collect_pairs(self.spec_edges(), |e: DepEdge| forward_pair(e))
    }

    pub open spec fn trigger_edges(&self) -> Seq<(usize, usize)> {
        collect_pairs(self.spec_edges(), |e: DepEdge| trigger_pair(e))
    }

    /// An empty graph holding the startup trigger.
    pub fn new() -> (r: Self)
        ensures
            r.wf(),
            r.spec_triggers() == seq![TriggerInfo { kind: TriggerKind::Startup, owner: ReactorId(0) }],
            r.spec_reactions().len() == 0,
            r.spec_edges().len() == 0,
    {
        let mut triggers = Vec::new();
        triggers.push(TriggerInfo { kind: TriggerKind::Startup, owner: ReactorId(0) });
        let r = DepGraph { triggers, reactions: Vec::new(), edges: Vec::new() };
        assert(r.spec_triggers() =~= seq![TriggerInfo { kind: TriggerKind::Startup, owner: ReactorId(0) }]);
        r
    }

    pub fn trigger_count(&self) -> (r: usize)
        ensures
            r == self.spec_triggers().len(),
    {
        self.triggers.len()
    }

    pub fn reaction_count(&self) -> (r: usize)
        ensures
            r == self.spec_reactions().len(),
    {
        self.reactions.len()
    }

    /// The recorded trigger `t`, if any.
    pub fn trigger_info(&self, t: TriggerId) -> (r: Option<TriggerInfo>)
        ensures
            t.0 < self.spec_triggers().len() ==> r == Some(self.spec_triggers()[t.0 as int]),
            t.0 >= self.spec_triggers().len() ==> r is None,
    {
        let i = t.0 as usize;
        if i < self.triggers.len() {
            Some(self.triggers[i])
        } else {
            None
        }
    }

    /// Records a new trigger and returns its id, which is the number of
    /// triggers recorded before; `None` once the id range is used up.
    pub fn record_trigger(&mut self, kind: TriggerKind, owner: ReactorId) -> (r: Option<TriggerId>)
        requires
            old(self).wf(),
        ensures
            final(self).wf(),
            final(self).spec_reactions() == old(self).spec_reactions(),
            final(self).spec_edges() == old(self).spec_edges(),
            old(self).spec_triggers().len() < u32::MAX && old(self).n_nodes() < usize::MAX ==> r == Some(
                TriggerId(old(self).spec_triggers().len() as u32),
            ) && final(self).spec_triggers() == old(self).spec_triggers().push(
                TriggerInfo { kind, owner },
            ),
            !(old(self).spec_triggers().len() < u32::MAX && old(self).n_nodes() < usize::MAX) ==> r is None
                && final(self).spec_triggers() == old(self).spec_triggers(),
    {
        let n = self.triggers.len();
        if n >= u32::MAX as usize || self.reactions.len() >= usize::MAX - n {
            return None;
        }
        self.triggers.push(TriggerInfo { kind, owner });
        proof {
            assert forall|k: int| 0 <= k < self.spec_edges().len() implies node_in_range(
                self.spec_triggers().len(),
                self.spec_reactions().len(),
                (#[trigger] self.spec_edges()[k]).from,
            ) && node_in_range(
                self.spec_triggers().len(),
                self.spec_reactions().len(),
                self.spec_edges()[k].to,
            ) by {
                assert(node_in_range(
                    old(self).spec_triggers().len(),
                    old(self).spec_reactions().len(),
                    old(self).spec_edges()[k].from,
                ));
                assert(node_in_range(
                    old(self).spec_triggers().len(),
                    old(self).spec_reactions().len(),
                    old(self).spec_edges()[k].to,
                ));
            }
        }
        Some(TriggerId(n as u32))
    }

    /// Records a reaction; `None` where the node count would overflow.
    pub fn record_reaction(&mut self, r: GlobalReactionId) -> (res: Option<usize>)
        requires
            old(self).wf(),
        ensures
            final(self).wf(),
            final(self).spec_triggers() == old(self).spec_triggers(),
            final(self).spec_edges() == old(self).spec_edges(),
            old(self).n_nodes() < usize::MAX ==> res == Some(old(self).spec_reactions().len() as usize)
                && final(self).spec_reactions() == old(self).spec_reactions().push(r),
            old(self).n_nodes() >= usize::MAX ==> res is None && final(self).spec_reactions()
                == old(self).spec_reactions(),
    {
        let n = self.reactions.len();
        if n >= usize::MAX - self.triggers.len() {
            return None;
        }
        self.reactions.push(r);
        proof {
            assert forall|k: int| 0 <= k < self.spec_edges().len() implies node_in_range(
                self.spec_triggers().len(),
                self.spec_reactions().len(),
                (#[trigger] self.spec_edges()[k]).from,
            ) && node_in_range(
                self.spec_triggers().len(),
                self.spec_reactions().len(),
                self.spec_edges()[k].to,
            ) by {
                assert(node_in_range(
                    old(self).spec_triggers().len(),
                    old(self).spec_reactions().len(),
                    old(self).spec_edges()[k].from,
                ));
                assert(node_in_range(
                    old(self).spec_triggers().len(),
                    old(self).spec_reactions().len(),
                    old(self).spec_edges()[k].to,
                ));
            }
        }
        Some(n)
    }

    /// The recorded reactions, in order.
    pub fn reaction_list(&self) -> (r: Vec<GlobalReactionId>)
        ensures
            r@ == self.spec_reactions(),
    {
        let mut out: Vec<GlobalReactionId> = Vec::new();
        let mut i: usize = 0;
        while i < self.reactions.len()
            invariant
                i <= self.reactions.len(),
                out@ == self.reactions@.take(i as int),
            decreases self.reactions.len() - i,
        {
            out.push(self.reactions[i]);
            i = i + 1;
            proof {
                assert(out@ =~= self.reactions@.take(i as int));
            }
        }
        assert(self.reactions@.take(i as int) =~= self.reactions@);
        out
    }

    /// Index of a recorded reaction.
    pub fn reaction_index(&self, r: GlobalReactionId) -> (res: Option<usize>)
        ensures
            res matches Some(i) ==> i < self.spec_reactions().len() && self.spec_reactions()[i as int] == r,
            res is None ==> !self.spec_reactions().contains(r),
    {
        let mut i: usize = 0;
        while i < self.reactions.len()
            invariant
                i <= self.reactions.len(),
                forall|j: int| 0 <= j < i ==> self.reactions@[j] != r,
            decreases self.reactions.len() - i,
        {
            if self.reactions[i] == r {
                return Some(i);
            }
            i = i + 1;
        }
        None
    }

    /// Records an edge between two recorded nodes.
    pub fn add_edge(&mut self, kind: EdgeKind, from: DepNode, to: DepNode)
        requires
            old(self).wf(),
            node_in_range(old(self).spec_triggers().len(), old(self).spec_reactions().len(), from),
            node_in_range(old(self).spec_triggers().len(), old(self).spec_reactions().len(), to),
        ensures
            final(self).wf(),
            final(self).spec_triggers() == old(self).spec_triggers(),
            final(self).spec_reactions() == old(self).spec_reactions(),
            final(self).spec_edges() == old(self).spec_edges().push(DepEdge { kind, from, to }),
    {
        self.edges.push(DepEdge { kind, from, to });
    }

    /// Whether trigger `t` is the target of a binding edge.
    pub fn is_bound(&self, t: usize) -> (r: bool)
        ensures
            r == exists|k: int|
                0 <= k < self.spec_edges().len() && (#[trigger] self.spec_edges()[k]).kind
                    == EdgeKind::Binding && self.spec_edges()[k].to == DepNode::Trigger(t),
    {
        let mut k: usize = 0;
        while k < self.edges.len()
            invariant
                k <= self.edges.len(),
                forall|j: int|
                    0 <= j < k ==> !((#[trigger] self.edges@[j]).kind == EdgeKind::Binding
                        && self.edges@[j].to == DepNode::Trigger(t)),
            decreases self.edges.len() - k,
        {
            let e = self.edges[k];
            if e.kind == EdgeKind::Binding && e.to == DepNode::Trigger(t) {
                return true;
            }
            k = k + 1;
        }
        false
    }

    pub(crate) fn node_number(&self, x: DepNode) -> (r: usize)
        requires
            self.wf(),
            node_in_range(self.spec_triggers().len(), self.spec_reactions().len(), x),
        ensures
            r == node_number(self.spec_triggers().len(), x),
            r < self.n_nodes(),
    {
        match x {
            DepNode::Trigger(t) => t,
            DepNode::Reaction(i) => self.triggers.len() + i,
        }
    }

    pub(crate) fn instant_edge_list(&self) -> (r: Vec<(usize, usize)>)
        requires
            self.wf(),
        ensures
            r@ == self.instant_edges(),
            crate::toposort::edges_in_range(self.n_nodes(), r@),
    {
        let ghost f = |e: DepEdge| instant_pair(self.spec_triggers(), e);
        let mut out: Vec<(usize, usize)> = Vec::new();
        let mut k: usize = 0;
        while k < self.edges.len()
            invariant
                self.wf(),
                k <= self.edges.len(),
                f == (|e: DepEdge| instant_pair(self.spec_triggers(), e)),
                out@ == collect_pairs(self.edges@.take(k as int), f),
                crate::toposort::edges_in_range(self.n_nodes(), out@),
            decreases self.edges.len() - k,
        {
            let e = self.edges[k];
            proof {
                assert(self.edges@.take(k + 1).drop_last() =~= self.edges@.take(k as int));
                assert(self.edges@.take(k + 1).last() == e);
                assert(node_in_range(self.spec_triggers().len(), self.spec_reactions().len(),
                    self.spec_edges()[k as int].from));
            }
            let same_instant = match e.kind {
                EdgeKind::Triggers => match e.from {
                    DepNode::Trigger(t) => match self.triggers[t].kind {
                        TriggerKind::Port(_) => true,
                        TriggerKind::PortBank(_) => true,
                        _ => false,
                    },
                    DepNode::Reaction(_) => true,
                },
                _ => true,
            };
            if same_instant {
                let a = self.node_number(e.from);
                let b = self.node_number(e.to);
                out.push((a, b));
            }
            k = k + 1;
        }
        assert(self.edges@.take(self.edges.len() as int) =~= self.edges@);
        out
    }

    pub(crate) fn forward_edge_list(&self) -> (r: Vec<(usize, usize)>)
        requires
            self.wf(),
        ensures
            r@ == self.forward_edges(),
            forall|k: int| 0 <= k < r.len() ==> (#[trigger] r@[k]).0 < self.spec_triggers().len() && r@[k].1
                < self.spec_triggers().len(),
    {
        let ghost f = |e: DepEdge| forward_pair(e);
        let mut out: Vec<(usize, usize)> = Vec::new();
        let mut k: usize = 0;
        while k < self.edges.len()
            invariant
                self.wf(),
                k <= self.edges.len(),
                f == (|e: DepEdge| forward_pair(e)),
                out@ == collect_pairs(self.edges@.take(k as int), f),
                forall|j: int| 0 <= j < out.len() ==> (#[trigger] out@[j]).0 < self.spec_triggers().len()
                    && out@[j].1 < self.spec_triggers().len(),
            decreases self.edges.len() - k,
        {
            let e = self.edges[k];
            proof {
                assert(self.edges@.take(k + 1).drop_last() =~= self.edges@.take(k as int));
                assert(self.edges@.take(k + 1).last() == e);
                assert(node_in_range(self.spec_triggers().len(), self.spec_reactions().len(),
                    self.spec_edges()[k as int].from));
                assert(node_in_range(self.spec_triggers().len(), self.spec_reactions().len(),
                    self.spec_edges()[k as int].to));
            }
            match (e.kind, e.from, e.to) {
                (EdgeKind::Binding, DepNode::Trigger(a), DepNode::Trigger(b)) => {
                    out.push((a, b));
                },
                (EdgeKind::BankMember, DepNode::Trigger(a), DepNode::Trigger(b)) => {
                    out.push((a, b));
                },
                _ => {},
            }
            k = k + 1;
        }
        assert(self.edges@.take(self.edges.len() as int) =~= self.edges@);
        out
    }

    pub(crate) fn trigger_edge_list(&self) -> (r: Vec<(usize, usize)>)
        requires
            self.wf(),
        ensures
            r@ == self.trigger_edges(),
    {
        let ghost f = |e: DepEdge| trigger_pair(e);
        let mut out: Vec<(usize, usize)> = Vec::new();
        let mut k: usize = 0;
        while k < self.edges.len()
            invariant
                k <= self.edges.len(),
                f == (|e: DepEdge| trigger_pair(e)),
                out@ == collect_pairs(self.edges@.take(k as int), f),
            decreases self.edges.len() - k,
        {
            let e = self.edges[k];
            proof {
                assert(self.edges@.take(k + 1).drop_last() =~= self.edges@.take(k as int));
                assert(self.edges@.take(k + 1).last() == e);
            }
            match (e.kind, e.from, e.to) {
                (EdgeKind::Triggers, DepNode::Trigger(t), DepNode::Reaction(i)) => {
                    out.push((t, i));
                },
                _ => {},
            }
            k = k + 1;
        }
        assert(self.edges@.take(self.edges.len() as int) =~= self.edges@);
        out
    }
}

} // verus!
