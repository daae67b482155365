//! Assembly of a reactor program: one [`Assembler`] per reactor instance,
//! all of them recording into one [`GlobalAssembler`].
//!
//! Reactor ids are handed out in preorder: a reactor gets its id before its
//! children are assembled. Finished reactors are registered in whatever order
//! the assembly unwinds; the registry grows on demand and tolerates gaps.
use crate::graph::{DepGraph, DepNode, EdgeKind, PortKind, TriggerInfo, TriggerKind};
use crate::ids::{
    chars_to_string, decimal_chars, push_decimal, push_str, spec_id_text, GlobalId, GlobalReactionId,
    LocalReactionId, ReactorId, TriggerId,
};
use crate::schedule::Schedule;
use crate::registry::{slots_grow, slots_into_vec, slots_len, slots_new, slots_of, slots_replace,
    ReactorSlots};
use vstd::prelude::*;

verus! {

/// The direction of a dependency that was refused.
#[derive(Debug, Copy, Clone, PartialEq, Eq, Structural)]
pub enum DependencyKind {
    /// The reaction reads the trigger.
    Use,
    /// The reaction sets the port or schedules the action.
    Affects,
    /// The trigger fires the reaction.
    Triggers,
}

/// Which rule a port binding breaks.
#[derive(Debug, Copy, Clone, PartialEq, Eq, Structural)]
pub enum BindingCause {
    /// One of the two ids is not a port.
    NotAPort,
    /// An upstream input port must be an input port of this reactor.
    UpstreamNotInThisReactor,
    /// An upstream output port must be an output port of a direct sub-reactor.
    UpstreamNotInDirectSubreactor,
    /// From an input of this reactor, a downstream input port must be
    /// declared in a direct sub-reactor.
    DownstreamNotInDirectSubreactor,
    /// From an output of a sub-reactor, a downstream input port must be
    /// declared in a different direct sub-reactor.
    DownstreamNotInOtherSubreactor,
    /// A downstream output port must be declared in this reactor.
    DownstreamNotInThisReactor,
    /// The downstream port is already bound.
    AlreadyBound,
}

/// Which rule a dependency declaration breaks.
#[derive(Debug, Copy, Clone, PartialEq, Eq, Structural)]
pub enum DependencyCause {
    /// The reaction was not declared by this reactor.
    ForeignReaction,
    /// The trigger was never allocated.
    UnknownTrigger,
    /// A reaction may only read or be triggered by input ports of its
    /// reactor and output ports of direct sub-reactors.
    PortNotReadable,
    /// A reaction may only set output ports of its reactor and input ports
    /// of direct sub-reactors.
    PortNotWritable,
    /// The port receives its values through a binding.
    PortAlreadyBound,
    /// Actions and timers can only be used by the reactor declaring them.
    ForeignTrigger,
    /// This kind of trigger cannot be set by a reaction.
    NotAffectable,
}

/// Assembly-time error, caused by an invalid structure of reactors.
#[derive(Debug)]
pub enum AssemblyError {
    /// A binding breaks a rule; the ids are the upstream and downstream port.
    InvalidBinding(BindingCause, TriggerId, TriggerId),
    /// A dependency breaks a rule.
    InvalidDependency(DependencyCause, GlobalReactionId, DependencyKind, TriggerId),
    /// Two components of one reactor share a name.
    DuplicateName(String),
    /// The same-instant dependencies close a cycle through this node.
    CyclicDependency(DepNode),
    /// The error arose while assembling this reactor.
    InContext(ReactorId, Box<AssemblyError>),
    /// The id range of reactors, reactions or triggers is used up.
    IdOverflow,
    /// A reactor got an id but was never registered.
    MissingReactor(ReactorId),
    /// A reactor was registered under an id that was never handed out.
    UnknownReactor(ReactorId),
    /// Two reactors were registered under one id.
    DuplicateReactor(ReactorId),
    /// A reactor record disagrees with what the assembly recorded for its
    /// id: its parent or its number of reactions.
    InconsistentReactor(ReactorId),
}

/// Text of a broken binding rule.
pub open spec fn binding_cause_text(c: BindingCause) -> Seq<char> {
    match c {
        BindingCause::NotAPort => "one of the ids is not a port"@,
        BindingCause::UpstreamNotInThisReactor => "upstream input port must be an input port of this reactor"@,
        BindingCause::UpstreamNotInDirectSubreactor =>
            "upstream output port must be an output port of a direct sub-reactor"@,
        BindingCause::DownstreamNotInDirectSubreactor =>
            "downstream input port must be declared in a direct sub-reactor"@,
        BindingCause::DownstreamNotInOtherSubreactor =>
            "downstream input port must be declared in a different direct sub-reactor"@,
        BindingCause::DownstreamNotInThisReactor => "downstream output port must be declared in this reactor"@,
        BindingCause::AlreadyBound => "downstream port is already bound"@,
    }
}

/// Text of a broken dependency rule.
pub open spec fn dependency_cause_text(c: DependencyCause) -> Seq<char> {
    match c {
        DependencyCause::ForeignReaction => "reaction not declared by this reactor"@,
        DependencyCause::UnknownTrigger => "trigger never allocated"@,
        DependencyCause::PortNotReadable =>
            "reaction can only use input ports of this reactor and output ports of sub-reactors"@,
        DependencyCause::PortNotWritable =>
            "reaction can only affect output ports of this reactor and input ports of sub-reactors"@,
        DependencyCause::PortAlreadyBound => "port is already bound"@,
        DependencyCause::ForeignTrigger => "action or timer of another reactor"@,
        DependencyCause::NotAffectable => "trigger cannot be affected"@,
    }
}

pub open spec fn dependency_kind_text(k: DependencyKind) -> Seq<char> {
    match k {
        DependencyKind::Use => "uses"@,
        DependencyKind::Affects => "affects"@,
        DependencyKind::Triggers => "is triggered by"@,
    }
}

pub open spec fn node_text(x: DepNode) -> Seq<char> {
    match x {
        DepNode::Trigger(t) => "trigger "@ + decimal_chars(t as nat),
        DepNode::Reaction(i) => "reaction "@ + decimal_chars(i as nat),
    }
}

/// The message of an assembly error.
pub open spec fn error_text(e: AssemblyError) -> Seq<char>
    decreases e,
{
    match e {
        AssemblyError::InvalidBinding(c, u, d) => "Invalid binding: "@ + binding_cause_text(c)
            + " (while binding '"@ + decimal_chars(u.0 as nat) + "' to '"@ + decimal_chars(d.0 as nat) + "')"@,
        AssemblyError::InvalidDependency(c, r, k, t) => "Invalid dependency: "@ + dependency_cause_text(c)
            + " (for dependency '"@ + spec_id_text(r.0.spec_container(), r.0.spec_local()) + "' "@
            + dependency_kind_text(k) + " '"@ + decimal_chars(t.0 as nat) + "')"@,
        AssemblyError::DuplicateName(n) => "Duplicate name '"@ + n@ + "'"@,
        AssemblyError::CyclicDependency(x) => "Cyclic dependency: "@ + node_text(x),
        AssemblyError::InContext(id, inner) => "While assembling "@ + decimal_chars(id.0 as nat) + ": "@
            + error_text(*inner),
        AssemblyError::IdOverflow => "Id range used up"@,
        AssemblyError::MissingReactor(id) => "Reactor "@ + decimal_chars(id.0 as nat) + " was never registered"@,
        AssemblyError::UnknownReactor(id) => "Reactor "@ + decimal_chars(id.0 as nat) + " was never handed out"@,
        AssemblyError::DuplicateReactor(id) => "Reactor "@ + decimal_chars(id.0 as nat) + " registered twice"@,
        AssemblyError::InconsistentReactor(id) => "Reactor "@ + decimal_chars(id.0 as nat)
            + " disagrees with its assembly"@,
    }
}

fn binding_cause_str(c: BindingCause) -> (r: &'static str)
    ensures
        r@ == binding_cause_text(c),
{
    match c {
        BindingCause::NotAPort => "one of the ids is not a port",
        BindingCause::UpstreamNotInThisReactor => "upstream input port must be an input port of this reactor",
        BindingCause::UpstreamNotInDirectSubreactor =>
            "upstream output port must be an output port of a direct sub-reactor",
        BindingCause::DownstreamNotInDirectSubreactor =>
            "downstream input port must be declared in a direct sub-reactor",
        BindingCause::DownstreamNotInOtherSubreactor =>
            "downstream input port must be declared in a different direct sub-reactor",
        BindingCause::DownstreamNotInThisReactor => "downstream output port must be declared in this reactor",
        BindingCause::AlreadyBound => "downstream port is already bound",
    }
}

fn dependency_cause_str(c: DependencyCause) -> (r: &'static str)
    ensures
        r@ == dependency_cause_text(c),
{
    match c {
        DependencyCause::ForeignReaction => "reaction not declared by this reactor",
        DependencyCause::UnknownTrigger => "trigger never allocated",
        DependencyCause::PortNotReadable =>
            "reaction can only use input ports of this reactor and output ports of sub-reactors",
        DependencyCause::PortNotWritable =>
            "reaction can only affect output ports of this reactor and input ports of sub-reactors",
        DependencyCause::PortAlreadyBound => "port is already bound",
        DependencyCause::ForeignTrigger => "action or timer of another reactor",
        DependencyCause::NotAffectable => "trigger cannot be affected",
    }
}

fn dependency_kind_str(k: DependencyKind) -> (r: &'static str)
    ensures
        r@ == dependency_kind_text(k),
{
    match k {
        DependencyKind::Use => "uses",
        DependencyKind::Affects => "affects",
        DependencyKind::Triggers => "is triggered by",
    }
}

impl AssemblyError {
    /// Appends the message of this error.
    fn push_message(&self, out: &mut Vec<char>)
        ensures
            final(out)@ == old(out)@ + error_text(*self),
        decreases self,
    {
        let ghost o = out@;
        match self {
            AssemblyError::InvalidBinding(c, u, d) => {
                push_str(out, "Invalid binding: ");
                push_str(out, binding_cause_str(*c));
                push_str(out, " (while binding '");
                push_decimal(out, u.0 as u64);
                push_str(out, "' to '");
                push_decimal(out, d.0 as u64);
                push_str(out, "')");
            },
            AssemblyError::InvalidDependency(c, r, k, t) => {
                push_str(out, "Invalid dependency: ");
                push_str(out, dependency_cause_str(*c));
                push_str(out, " (for dependency '");
                push_decimal(out, r.0.container().0 as u64);
                out.push('/');
                push_decimal(out, r.0.local().0 as u64);
                push_str(out, "' ");
                push_str(out, dependency_kind_str(*k));
                push_str(out, " '");
                push_decimal(out, t.0 as u64);
                push_str(out, "')");
            },
            AssemblyError::DuplicateName(n) => {
                push_str(out, "Duplicate name '");
                push_str(out, n.as_str());
                push_str(out, "'");
            },
            AssemblyError::CyclicDependency(x) => {
                push_str(out, "Cyclic dependency: ");
                match x {
                    DepNode::Trigger(t) => {
                        push_str(out, "trigger ");
                        push_decimal(out, *t as u64);
                    },
                    DepNode::Reaction(i) => {
                        push_str(out, "reaction ");
                        push_decimal(out, *i as u64);
                    },
                }
            },
            AssemblyError::InContext(id, inner) => {
                push_str(out, "While assembling ");
                push_decimal(out, id.0 as u64);
                push_str(out, ": ");
                inner.push_message(out);
            },
            AssemblyError::IdOverflow => {
                push_str(out, "Id range used up");
            },
            AssemblyError::MissingReactor(id) => {
                push_str(out, "Reactor ");
                push_decimal(out, id.0 as u64);
                push_str(out, " was never registered");
            },
            AssemblyError::UnknownReactor(id) => {
                push_str(out, "Reactor ");
                push_decimal(out, id.0 as u64);
                push_str(out, " was never handed out");
            },
            AssemblyError::DuplicateReactor(id) => {
                push_str(out, "Reactor ");
                push_decimal(out, id.0 as u64);
                push_str(out, " registered twice");
            },
            AssemblyError::InconsistentReactor(id) => {
                push_str(out, "Reactor ");
                push_decimal(out, id.0 as u64);
                push_str(out, " disagrees with its assembly");
            },
        }
        proof {
            assert(out@ =~= o + error_text(*self));
        }
    }

    /// The message of this error, naming the cause and the ids involved;
    /// an error in context is prefixed by the reactor it arose in.
    pub fn message(&self) -> (r: String)
        ensures
            r@ == error_text(*self),
    {
        let mut v: Vec<char> = Vec::new();
        self.push_message(&mut v);
        chars_to_string(&v)
    }
}

/// The output of the assembly of one reactor.
#[derive(Debug, Clone)]
pub struct RunnableReactor {
    pub global_id: ReactorId,
    pub parent: Option<ReactorId>,
    pub name: String,
    pub num_reactions: u16,
}

impl RunnableReactor {
    /// A copy of this record.
    pub fn duplicate(&self) -> (r: RunnableReactor)
        ensures
            r == *self,
    {
        RunnableReactor {
            global_id: self.global_id,
            parent: self.parent,
            name: self.name.clone(),
            num_reactions: self.num_reactions,
        }
    }
}

/// Global state of the assembly, shared by all assemblers.
pub struct GlobalAssembler {
    graph: DepGraph,
    /// Parent of each reactor, by reactor id.
    parents: Vec<Option<ReactorId>>,
    /// Number of reactions each reactor declared, by reactor id.
    declared: Vec<u16>,
    reactors: ReactorSlots,
}

/// Handle of a port bank and of its channels.
#[derive(Debug)]
pub struct PortBank {
    pub id: TriggerId,
    pub channels: Vec<TriggerId>,
}

/// Handle of a logical or physical action.
#[derive(Debug, Copy, Clone, PartialEq, Eq, Structural)]
pub struct ActionId {
    pub id: TriggerId,
    /// Minimal delay in nanoseconds, added to every scheduling.
    pub min_delay: u64,
    pub is_logical: bool,
}

/// Assembles one reactor. Components and reactions it creates belong to it;
/// its dependencies may reach only its own components and the ports of its
/// direct sub-reactors.
pub struct Assembler {
    id: ReactorId,
    parent: Option<ReactorId>,
    name: String,
    local_names: Vec<String>,
    num_reactions: u16,
    reactions_done: bool,
}

impl GlobalAssembler {
    pub closed spec fn spec_graph(&self) -> DepGraph {
        self.graph
    }

    pub closed spec fn spec_parents(&self) -> Seq<Option<ReactorId>> {
        self.parents@
    }

    pub closed spec fn spec_slots(&self) -> Seq<Option<RunnableReactor>> {
        slots_of(self.reactors)
    }

    /// Number of reactions each reactor declared, by reactor id.
    pub closed spec fn spec_declared(&self) -> Seq<u16> {
        self.declared@
    }

    /// Reaction `i` of reactor `c` is recorded in the graph.
    pub open spec fn has_reaction(&self, c: int, i: int) -> bool {
        self.spec_graph().spec_reactions().contains(GlobalReactionId(GlobalId::spec_new(c as u16, i as u16)))
    }

    /// `r` is what the assembly recorded for reactor `c`: its parent, and
    /// reactions that are in the graph.
    pub open spec fn agrees(&self, c: int, r: RunnableReactor) -> bool {
        &&& r.global_id.0 == c
        &&& 0 <= c < self.spec_parents().len()
        &&& r.parent == self.spec_parents()[c]
        &&& forall|i: int| 0 <= i < r.num_reactions ==> #[trigger] self.has_reaction(c, i)
    }

    /// Parents carry smaller ids than their children (ids are preorder);
    /// the declared reactions of every reactor are in the graph; and a
    /// registered reactor sits in the slot of its id and agrees with what
    /// was recorded for it.
    pub open spec fn wf(&self) -> bool {
        &&& self.spec_graph().wf()
        &&& self.spec_parents().len() <= 65536
        &&& self.spec_declared().len() == self.spec_parents().len()
        &&& forall|c: int|
            0 <= c < self.spec_parents().len()
                ==> (#[trigger] self.spec_parents()[c] matches Some(p) ==> p.0 < c)
        &&& forall|c: int, i: int|
            0 <= c < self.spec_parents().len() && 0 <= i < #[trigger] self.spec_declared()[c]
                ==> #[trigger] self.has_reaction(c, i)
        &&& forall|c: int|
            0 <= c < self.spec_slots().len()
                ==> (#[trigger] self.spec_slots()[c] matches Some(r) ==> self.agrees(c, r))
    }

    /// A record that agrees with one state agrees with a later state that
    /// keeps the reactor's parent and keeps every reaction.
    pub proof fn lemma_agrees_later(g0: GlobalAssembler, g1: GlobalAssembler, c: int, r: RunnableReactor)
        requires
            g0.agrees(c, r),
            g0.spec_parents().len() <= g1.spec_parents().len(),
            g1.spec_parents()[c] == g0.spec_parents()[c],
            forall|x: GlobalReactionId| g0.spec_graph().spec_reactions().contains(x)
                ==> #[trigger] g1.spec_graph().spec_reactions().contains(x),
        ensures
            g1.agrees(c, r),
    {
        assert forall|i: int| 0 <= i < r.num_reactions implies #[trigger] g1.has_reaction(c, i) by {
            assert(g0.has_reaction(c, i));
        }
    }

    /// Changes to the graph that keep every reaction, and to nothing else,
    /// keep the assembly well-formed.
    pub proof fn lemma_wf_grow(g0: GlobalAssembler, g1: GlobalAssembler)
        requires
            g0.wf(),
            g1.spec_graph().wf(),
            g1.spec_parents() == g0.spec_parents(),
            g1.spec_declared() == g0.spec_declared(),
            g1.spec_slots() == g0.spec_slots(),
            forall|x: GlobalReactionId| g0.spec_graph().spec_reactions().contains(x)
                ==> #[trigger] g1.spec_graph().spec_reactions().contains(x),
        ensures
            g1.wf(),
    {
        assert forall|c: int, i: int|
            0 <= c < g1.spec_parents().len()
                && 0 <= i < #[trigger] g1.spec_declared()[c] implies #[trigger] g1.has_reaction(
            c,
            i,
        ) by {
            assert(g0.has_reaction(c, i));
        }
        assert forall|c: int| 0 <= c < g1.spec_slots().len() implies (#[trigger] g1.spec_slots()[c] matches Some(r)
            ==> g1.agrees(c, r)) by {
            if let Some(r) = g1.spec_slots()[c] {
                assert(g0.agrees(c, r));
                GlobalAssembler::lemma_agrees_later(g0, g1, c, r);
            }
        }
    }

    /// Changes to the graph that keep its reactions keep the assembly
    /// well-formed.
    pub proof fn lemma_wf_keeps(g0: GlobalAssembler, g1: GlobalAssembler)
        requires
            g0.wf(),
            g1.spec_graph().wf(),
            g1.spec_parents() == g0.spec_parents(),
            g1.spec_declared() == g0.spec_declared(),
            g1.spec_slots() == g0.spec_slots(),
            g1.spec_graph().spec_reactions() == g0.spec_graph().spec_reactions(),
        ensures
            g1.wf(),
    {
        GlobalAssembler::lemma_wf_grow(g0, g1);
    }

    /// `c` is a direct sub-reactor of `p`.
    pub open spec fn is_child(&self, c: ReactorId, p: ReactorId) -> bool {
        (c.0 as int) < self.spec_parents().len() && self.spec_parents()[c.0 as int] == Some(p)
    }

    pub open spec fn trigger(&self, t: TriggerId) -> TriggerInfo {
        self.spec_graph().spec_triggers()[t.0 as int]
    }

    pub open spec fn has_trigger(&self, t: TriggerId) -> bool {
        (t.0 as int) < self.spec_graph().spec_triggers().len()
    }

    /// The port kind of `t`, where `t` is a port.
    pub open spec fn port_kind(&self, t: TriggerId) -> Option<PortKind> {
        if self.has_trigger(t) {
            match self.trigger(t).kind {
                TriggerKind::Port(k) => Some(k),
                TriggerKind::PortBank(k) => Some(k),
                _ => None,
            }
        } else {
            None
        }
    }

    /// Some binding already forwards values into `t`.
    pub open spec fn is_bound(&self, t: TriggerId) -> bool {
        exists|k: int|
            0 <= k < self.spec_graph().spec_edges().len()
                && (#[trigger] self.spec_graph().spec_edges()[k]).kind
                == EdgeKind::Binding && self.spec_graph().spec_edges()[k].to == DepNode::Trigger(t.0 as usize)
    }

    /// The placement rule, if any, that binding `up` to `down` inside
    /// reactor `me` breaks.
    pub open spec fn placement_violation(&self, me: ReactorId, up: TriggerId, down: TriggerId) -> Option<
        BindingCause,
    > {
        match (self.port_kind(up), self.port_kind(down)) {
            (Some(uk), Some(dk)) => {
                let uo = self.trigger(up).owner;
                let d_o = self.trigger(down).owner;
                match uk {
                    PortKind::Input => if uo != me {
                        Some(BindingCause::UpstreamNotInThisReactor)
                    } else if dk == PortKind::Input && !self.is_child(d_o, me) {
                        Some(BindingCause::DownstreamNotInDirectSubreactor)
                    } else if dk == PortKind::Output && d_o != me {
                        Some(BindingCause::DownstreamNotInThisReactor)
                    } else {
                        None
                    },
                    PortKind::Output => if !self.is_child(uo, me) {
                        Some(BindingCause::UpstreamNotInDirectSubreactor)
                    } else if dk == PortKind::Input && (!self.is_child(d_o, me) || d_o == uo) {
                        Some(BindingCause::DownstreamNotInOtherSubreactor)
                    } else if dk == PortKind::Output && d_o != me {
                        Some(BindingCause::DownstreamNotInThisReactor)
                    } else {
                        None
                    },
                }
            },
            _ => Some(BindingCause::NotAPort),
        }
    }

    /// The rule, if any, that binding `up` to `down` inside reactor `me`
    /// breaks: a placement rule, or else the downstream port being bound.
    pub open spec fn binding_violation(&self, me: ReactorId, up: TriggerId, down: TriggerId) -> Option<
        BindingCause,
    > {
        if self.placement_violation(me, up, down) is Some {
            self.placement_violation(me, up, down)
        } else if self.is_bound(down) {
            Some(BindingCause::AlreadyBound)
        } else {
            None
        }
    }

    /// A reaction of `me` may read (or be triggered by) port `t`.
    pub open spec fn readable(&self, me: ReactorId, t: TriggerId) -> bool {
        match self.port_kind(t) {
            Some(PortKind::Input) => self.trigger(t).owner == me,
            Some(PortKind::Output) => self.is_child(self.trigger(t).owner, me),
            None => false,
        }
    }

    /// A reaction of `me` may set port `t`.
    pub open spec fn writable(&self, me: ReactorId, t: TriggerId) -> bool {
        match self.port_kind(t) {
            Some(PortKind::Output) => self.trigger(t).owner == me,
            Some(PortKind::Input) => self.is_child(self.trigger(t).owner, me),
            None => false,
        }
    }

    pub fn new() -> (r: Self)
        ensures
            r.wf(),
            r.spec_parents().len() == 0,
            r.spec_slots().len() == 0,
            r.spec_graph().spec_triggers().len() == 1,
            r.spec_graph().spec_reactions().len() == 0,
            r.spec_graph().spec_edges().len() == 0,
    {
        GlobalAssembler { graph: DepGraph::new(), parents: Vec::new(), declared: Vec::new(), reactors: slots_new() }
    }

    /// The dependency graph recorded so far.
    pub fn flow_graph(&self) -> (r: &DepGraph)
        ensures
            *r == self.spec_graph(),
    {
        &self.graph
    }

    /// Number of reactor ids handed out.
    pub fn reactor_count(&self) -> (r: usize)
        ensures
            r == self.spec_parents().len(),
    {
        self.parents.len()
    }

    fn check_child(&self, c: ReactorId, p: ReactorId) -> (r: bool)
        ensures
            r == self.is_child(c, p),
    {
        let i = c.0 as usize;
        if i < self.parents.len() {
            match self.parents[i] {
                Some(q) => q == p,
                None => false,
            }
        } else {
            false
        }
    }

    fn kind_of_port(&self, t: TriggerId) -> (r: Option<PortKind>)
        ensures
            r == self.port_kind(t),
    {
        match self.graph.trigger_info(t) {
            Some(info) => match info.kind {
                TriggerKind::Port(k) => Some(k),
                TriggerKind::PortBank(k) => Some(k),
                _ => None,
            },
            None => None,
        }
    }

    fn can_read(&self, me: ReactorId, t: TriggerId) -> (r: bool)
        ensures
            r == self.readable(me, t),
    {
        match self.kind_of_port(t) {
            Some(PortKind::Input) => self.graph.trigger_info(t).unwrap().owner == me,
            Some(PortKind::Output) => self.check_child(self.graph.trigger_info(t).unwrap().owner, me),
            None => false,
        }
    }

    fn can_write(&self, me: ReactorId, t: TriggerId) -> (r: bool)
        ensures
            r == self.writable(me, t),
    {
        match self.kind_of_port(t) {
            Some(PortKind::Output) => self.graph.trigger_info(t).unwrap().owner == me,
            Some(PortKind::Input) => self.check_child(self.graph.trigger_info(t).unwrap().owner, me),
            None => false,
        }
    }

    /// Hands out the next reactor id, preorder, with its parent.
    fn allocate_reactor(&mut self, parent: Option<ReactorId>) -> (r: Option<ReactorId>)
        requires
            old(self).wf(),
            parent matches Some(p) ==> (p.0 as int) < old(self).spec_parents().len(),
        ensures
            final(self).wf(),
            final(self).spec_graph() == old(self).spec_graph(),
            final(self).spec_slots() == old(self).spec_slots(),
            old(self).spec_parents().len() < 65536
                ==> r == Some(ReactorId(old(self).spec_parents().len() as u16))
                && final(self).spec_parents() == old(self).spec_parents().push(parent)
                && final(self).spec_declared() == old(self).spec_declared().push(0),
            old(self).spec_parents().len() >= 65536 ==> r is None && final(self).spec_parents()
                == old(self).spec_parents() && final(self).spec_declared() == old(self).spec_declared(),
    {
        let n = self.parents.len();
        if n >= 65536 {
            return None;
        }
        self.parents.push(parent);
        self.declared.push(0);
        proof {
            assert forall|c: int| 0 <= c < self.spec_slots().len() implies (#[trigger] self.spec_slots()[c] matches Some(
                r,
            ) ==> self.agrees(c, r)) by {
                if let Some(r) = self.spec_slots()[c] {
                    assert(old(self).agrees(c, r));
                    assert(self.spec_parents()[c] == old(self).spec_parents()[c]);
                    GlobalAssembler::lemma_agrees_later(*old(self), *self, c, r);
                }
            }
            assert forall|c: int, i: int|
                0 <= c < self.spec_parents().len()
                    && 0 <= i < #[trigger] self.spec_declared()[c] implies #[trigger] self.has_reaction(
                c,
                i,
            ) by {
                if c < n {
                    assert(self.spec_declared()[c] == old(self).spec_declared()[c]);
                    assert(old(self).has_reaction(c, i));
                }
            }
        }
        Some(ReactorId(n as u16))
    }

    /// What the assembly recorded for reactor `id`, under `name`.
    pub fn record_for(&self, id: ReactorId, name: &str) -> (r: RunnableReactor)
        requires
            self.wf(),
            (id.0 as int) < self.spec_parents().len(),
        ensures
            r.global_id == id,
            r.parent == self.spec_parents()[id.0 as int],
            r.num_reactions == self.spec_declared()[id.0 as int],
            r.name@ == name@,
            self.agrees(id.0 as int, r),
    {
        let i = id.0 as usize;
        RunnableReactor { global_id: id, parent: self.parents[i], name: name.to_owned(),
            num_reactions: self.declared[i] }
    }

    /// Number of reactions reactor `id` declared.
    pub fn declared_reactions(&self, id: ReactorId) -> (r: u16)
        requires
            self.wf(),
            (id.0 as int) < self.spec_parents().len(),
        ensures
            r == self.spec_declared()[id.0 as int],
    {
        self.declared[id.0 as usize]
    }

    /// Parent of reactor `id`.
    pub fn parent_of(&self, id: ReactorId) -> (r: Option<ReactorId>)
        requires
            (id.0 as int) < self.spec_parents().len(),
        ensures
            r == self.spec_parents()[id.0 as int],
    {
        self.parents[id.0 as usize]
    }

    /// Records a finished reactor in the slot of its id, growing the
    /// registry as needed. Fails where the id was never handed out, where
    /// the record disagrees with the recorded parent or number of reactions
    /// of that id, or where the slot is taken.
    pub fn register_reactor(&mut self, r: RunnableReactor) -> (res: Result<(), AssemblyError>)
        requires
            old(self).wf(),
        ensures
            final(self).wf(),
            final(self).spec_graph() == old(self).spec_graph(),
            final(self).spec_parents() == old(self).spec_parents(),
            final(self).spec_declared() == old(self).spec_declared(),
            res is Ok <==> (r.global_id.0 as int) < old(self).spec_parents().len()
                && r.parent == old(self).spec_parents()[r.global_id.0 as int]
                && r.num_reactions == old(self).spec_declared()[r.global_id.0 as int] && !(
            (r.global_id.0 as int) < old(self).spec_slots().len()
                && old(self).spec_slots()[r.global_id.0 as int] is Some),
            res is Ok ==> final(self).spec_slots().len() == if (r.global_id.0 as int) < old(self).spec_slots().len() {
                old(self).spec_slots().len() as int
            } else {
                r.global_id.0 + 1
            },
            res is Ok ==> final(self).spec_slots().len() > r.global_id.0
                && final(self).spec_slots()[r.global_id.0 as int]
                == Some(r),
            res is Ok ==> forall|c: int|
                0 <= c < final(self).spec_slots().len() && c != r.global_id.0
                    ==> #[trigger] final(self).spec_slots()[c]
                    == if c < old(self).spec_slots().len() {
                    old(self).spec_slots()[c]
                } else {
                    None
                },
            res is Err ==> final(self).spec_slots() == old(self).spec_slots(),
            res matches Err(e) ==> (e is UnknownReactor
                <==> (r.global_id.0 as int) >= old(self).spec_parents().len())
                && (e is InconsistentReactor <==> (r.global_id.0 as int) < old(self).spec_parents().len() && (
                r.parent != old(self).spec_parents()[r.global_id.0 as int] || r.num_reactions
                != old(self).spec_declared()[r.global_id.0 as int]))
                && (e is UnknownReactor || e is InconsistentReactor || e is DuplicateReactor),
    {
        let id = r.global_id;
        if id.0 as usize >= self.parents.len() {
            return Err(AssemblyError::UnknownReactor(id));
        }
        if r.parent != self.parents[id.0 as usize] || r.num_reactions != self.declared[id.0 as usize] {
            return Err(AssemblyError::InconsistentReactor(id));
        }
        proof {
            assert(self.agrees(id.0 as int, r));
        }
        let len = slots_len(&self.reactors);
        if id.0 as usize >= len {
            slots_grow(&mut self.reactors, id.0 as usize + 1);
        }
        let prev = slots_replace(&mut self.reactors, id, Some(r));
        match prev {
            Some(p) => {
                slots_replace(&mut self.reactors, id, Some(p));
                proof {
                    assert(self.spec_slots() =~= old(self).spec_slots());
                    GlobalAssembler::lemma_wf_keeps(*old(self), *self);
                }
                Err(AssemblyError::DuplicateReactor(id))
            },
            None => {
                proof {
                    assert forall|c: int| 0 <= c < self.spec_slots().len()
                        implies (#[trigger] self.spec_slots()[c] matches Some(
                        r2,
                    ) ==> self.agrees(c, r2)) by {
                        if c == id.0 as int {
                            GlobalAssembler::lemma_agrees_later(*old(self), *self, c, r);
                        } else if let Some(r2) = self.spec_slots()[c] {
                            assert(c < old(self).spec_slots().len() && old(self).spec_slots()[c] == Some(r2));
                            assert(old(self).agrees(c, r2));
                            GlobalAssembler::lemma_agrees_later(*old(self), *self, c, r2);
                        }
                    }
                    assert forall|c: int, i: int|
                        0 <= c < self.spec_parents().len()
                            && 0 <= i < #[trigger] self.spec_declared()[c] implies #[trigger] self.has_reaction(
                        c,
                        i,
                    ) by {
                        assert(old(self).has_reaction(c, i));
                    }
                }
                Ok(())
            },
        }
    }
}

/// Edge recorded for a dependency of reaction index `i` on trigger `t`.
pub open spec fn dependency_edge(kind: DependencyKind, t: TriggerId, i: usize) -> crate::graph::DepEdge {
    match kind {
        DependencyKind::Use => crate::graph::DepEdge {
            kind: EdgeKind::Uses,
            from: DepNode::Trigger(t.0 as usize),
            to: DepNode::Reaction(i),
        },
        DependencyKind::Triggers => crate::graph::DepEdge {
            kind: EdgeKind::Triggers,
            from: DepNode::Trigger(t.0 as usize),
            to: DepNode::Reaction(i),
        },
        DependencyKind::Affects => crate::graph::DepEdge {
            kind: EdgeKind::Effects,
            from: DepNode::Reaction(i),
            to: DepNode::Trigger(t.0 as usize),
        },
    }
}

/// Outcome of declaring, in assembler `a`, that `reaction` depends on `t`
/// in direction `kind`: refused with the rule it breaks and `g` unchanged,
/// or recorded as one new edge.
pub open spec fn declaration_outcome(
    a: Assembler,
    g0: GlobalAssembler,
    g1: GlobalAssembler,
    kind: DependencyKind,
    reaction: GlobalReactionId,
    t: TriggerId,
    r: Result<(), AssemblyError>,
) -> bool {
    match a.dependency_violation(g0, kind, reaction, t) {
        Some(c) => r matches Err(AssemblyError::InvalidDependency(c2, r2, k2, t2)) && c2 == c && r2 == reaction
            && k2 == kind && t2 == t && g1.spec_graph() == g0.spec_graph(),
        None => r is Ok && exists|i: usize|
            i < g0.spec_graph().spec_reactions().len() && g0.spec_graph().spec_reactions()[i as int] == reaction
                && g1.spec_graph().spec_edges() == g0.spec_graph().spec_edges().push(dependency_edge(kind, t, i)),
    }
}

/// The trigger `t` changes `g` only by being appended as a component of
/// kind `kind` owned by `owner`.
pub open spec fn appended_trigger(
    g0: GlobalAssembler,
    g1: GlobalAssembler,
    t: TriggerId,
    kind: TriggerKind,
    owner: ReactorId,
) -> bool {
    &&& t.0 == g0.spec_graph().spec_triggers().len()
    &&& g1.spec_graph().spec_triggers() == g0.spec_graph().spec_triggers().push(TriggerInfo { kind, owner })
    &&& g1.spec_graph().spec_reactions() == g0.spec_graph().spec_reactions()
    &&& g1.spec_graph().spec_edges() == g0.spec_graph().spec_edges()
}

/// Room for `k` more nodes, triggers among them where `triggers` holds.
pub open spec fn has_room(g: GlobalAssembler, k: nat, triggers: bool) -> bool {
    &&& g.spec_graph().n_nodes() + k <= usize::MAX - 1
    &&& triggers ==> g.spec_graph().spec_triggers().len() + k <= u32::MAX - 1
}

impl Assembler {
    pub closed spec fn spec_id(&self) -> ReactorId {
        self.id
    }

    pub closed spec fn spec_names(&self) -> Seq<String> {
        self.local_names@
    }

    pub closed spec fn spec_num_reactions(&self) -> u16 {
        self.num_reactions
    }

    pub closed spec fn spec_reactions_done(&self) -> bool {
        self.reactions_done
    }

    pub closed spec fn spec_parent(&self) -> Option<ReactorId> {
        self.parent
    }

    /// The name is taken by a component of this reactor.
    pub open spec fn name_taken(&self, name: Seq<char>) -> bool {
        exists|i: int| 0 <= i < self.spec_names().len() && (#[trigger] self.spec_names()[i])@ == name
    }

    /// This assembler's reactor was allocated in `g`.
    pub open spec fn valid_in(&self, g: GlobalAssembler) -> bool {
        (self.spec_id().0 as int) < g.spec_parents().len()
    }

    /// `r` is a reaction that this reactor declared.
    pub open spec fn owns_reaction(&self, g: GlobalAssembler, r: GlobalReactionId) -> bool {
        &&& r.0.spec_container() == self.spec_id().0
        &&& r.0.spec_local() < self.spec_num_reactions()
        &&& g.spec_graph().spec_reactions().contains(r)
    }

    /// The rule, if any, that reaction `r` depending on `t` in direction
    /// `kind` breaks.
    pub open spec fn dependency_violation(
        &self,
        g: GlobalAssembler,
        kind: DependencyKind,
        r: GlobalReactionId,
        t: TriggerId,
    ) -> Option<DependencyCause> {
        let me = self.spec_id();
        if !self.owns_reaction(g, r) {
            Some(DependencyCause::ForeignReaction)
        } else if !g.has_trigger(t) {
            Some(DependencyCause::UnknownTrigger)
        } else {
            match g.trigger(t).kind {
                TriggerKind::Port(_) | TriggerKind::PortBank(_) => match kind {
                    DependencyKind::Affects => if !g.writable(me, t) {
                        Some(DependencyCause::PortNotWritable)
                    } else if g.is_bound(t) {
                        Some(DependencyCause::PortAlreadyBound)
                    } else {
                        None
                    },
                    _ => if !g.readable(me, t) {
                        Some(DependencyCause::PortNotReadable)
                    } else {
                        None
                    },
                },
                TriggerKind::Startup => if kind == DependencyKind::Affects {
                    Some(DependencyCause::NotAffectable)
                } else {
                    None
                },
                _ => if g.trigger(t).owner != me {
                    Some(DependencyCause::ForeignTrigger)
                } else {
                    None
                },
            }
        }
    }

    /// Starts the assembly of the top-level reactor, which gets the next
    /// reactor id and no parent.
    pub fn root(g: &mut GlobalAssembler, name: &str) -> (r: Result<Assembler, AssemblyError>)
        requires
            old(g).wf(),
        ensures
            final(g).wf(),
            final(g).spec_graph() == old(g).spec_graph(),
            final(g).spec_slots() == old(g).spec_slots(),
            old(g).spec_parents().len() < 65536 <==> r is Ok,
            r matches Ok(a) ==> a.spec_id().0 == old(g).spec_parents().len() && a.spec_parent() is None
                && a.spec_names().len() == 0 && !a.spec_reactions_done() && a.valid_in(*final(g))
                && final(g).spec_parents() == old(g).spec_parents().push(None),
            r matches Err(e) ==> e is IdOverflow && final(g).spec_parents() == old(g).spec_parents(),
    {
        match g.allocate_reactor(None) {
            Some(id) => Ok(
                Assembler {
                    id,
                    parent: None,
                    name: name.to_owned(),
                    local_names: Vec::new(),
                    num_reactions: 0,
                    reactions_done: false,
                },
            ),
            None => Err(AssemblyError::IdOverflow),
        }
    }

    /// The id of the reactor being assembled.
    pub fn get_id(&self) -> (r: ReactorId)
        ensures
            r == self.spec_id(),
    {
        self.id
    }

    /// Whether a component of this reactor is named `name`.
    fn has_name(&self, name: &str) -> (r: bool)
        ensures
            r == self.name_taken(name@),
    {
        let owned = name.to_owned();
        let mut i: usize = 0;
        while i < self.local_names.len()
            invariant
                i <= self.local_names.len(),
                owned@ == name@,
                forall|j: int| 0 <= j < i ==> (#[trigger] self.local_names@[j])@ != name@,
            decreases self.local_names.len() - i,
        {
            if self.local_names[i] == owned {
                proof {
                    assert(self.spec_names()[i as int]@ == name@);
                }
                return true;
            }
            i = i + 1;
        }
        false
    }

    /// Records a component name.
    fn add_name(&mut self, name: &str)
        ensures
            final(self).spec_id() == old(self).spec_id(),
            final(self).spec_parent() == old(self).spec_parent(),
            final(self).spec_num_reactions() == old(self).spec_num_reactions(),
            final(self).spec_reactions_done() == old(self).spec_reactions_done(),
            forall|n: Seq<char>| #[trigger] final(self).name_taken(n) <==> old(self).name_taken(n) || n == name@,
    {
        self.local_names.push(name.to_owned());
        proof {
            let k = self.local_names@.len() - 1;
            assert(self.spec_names()[k]@ == name@);
            assert forall|n: Seq<char>| #[trigger] self.name_taken(n) <==> old(self).name_taken(n) || n == name@ by {
                if old(self).name_taken(n) {
                    let j = choose|j: int| 0 <= j < old(self).spec_names().len()
                        && (#[trigger] old(self).spec_names()[j])@ == n;
                    assert(self.spec_names()[j] == old(self).spec_names()[j]);
                }
                if self.name_taken(n) {
                    let j = choose|j: int| 0 <= j < self.spec_names().len()
                        && (#[trigger] self.spec_names()[j])@ == n;
                    if j < k {
                        assert(self.spec_names()[j] == old(self).spec_names()[j]);
                    }
                }
            }
        }
    }

    /// Allocates a trigger of this reactor under a fresh name.
    fn new_component(&mut self, g: &mut GlobalAssembler, name: &str, kind: TriggerKind) -> (r: Result<
        TriggerId,
        AssemblyError,
    >)
        requires
            old(g).wf(),
        ensures
            final(g).wf(),
            final(g).spec_parents() == old(g).spec_parents(),
            final(g).spec_slots() == old(g).spec_slots(),
            final(self).spec_id() == old(self).spec_id(),
            final(self).spec_parent() == old(self).spec_parent(),
            final(self).spec_num_reactions() == old(self).spec_num_reactions(),
            final(self).spec_reactions_done() == old(self).spec_reactions_done(),
            old(self).name_taken(name@) ==> (r matches Err(AssemblyError::DuplicateName(n)) && n@ == name@),
            !old(self).name_taken(name@) && !has_room(*old(g), 1, true) ==> (r matches Err(e)
                && e is IdOverflow),
            r is Err ==> final(g).spec_graph() == old(g).spec_graph() && *final(self) == *old(self),
            r is Ok ==> forall|n: Seq<char>| #[trigger] final(self).name_taken(n)
                <==> old(self).name_taken(n) || n == name@,
            !old(self).name_taken(name@) && has_room(*old(g), 1, true) ==> r is Ok,
            r matches Ok(t) ==> appended_trigger(*old(g), *final(g), t, kind, old(self).spec_id())
                && final(self).name_taken(name@),
    {
        if self.has_name(name) {
            return Err(AssemblyError::DuplicateName(name.to_owned()));
        }
        let n = g.graph.trigger_count();
        let total = n + g.graph.reaction_count();
        if !(total < usize::MAX - 1 && n < u32::MAX as usize - 1) {
            return Err(AssemblyError::IdOverflow);
        }
        self.add_name(name);
        let ghost g0 = *g;
        let res = g.graph.record_trigger(kind, self.id);
        proof {
            GlobalAssembler::lemma_wf_keeps(g0, *g);
        }
        match res {
            Some(t) => Ok(t),
            None => Err(AssemblyError::IdOverflow),
        }
    }

    /// Creates an input port of this reactor.
    pub fn new_input_port(&mut self, g: &mut GlobalAssembler, name: &str) -> (r: Result<TriggerId,
        AssemblyError>)
        requires
            old(g).wf(),
        ensures
            final(g).wf(),
            final(g).spec_parents() == old(g).spec_parents(),
            old(self).name_taken(name@) ==> (r matches Err(AssemblyError::DuplicateName(n)) && n@ == name@),
            r is Err ==> final(g).spec_graph() == old(g).spec_graph() && *final(self) == *old(self),
            r is Ok ==> forall|n: Seq<char>| #[trigger] final(self).name_taken(n)
                <==> old(self).name_taken(n) || n == name@,
            !old(self).name_taken(name@) && has_room(*old(g), 1, true) ==> r is Ok,
            !old(self).name_taken(name@) && !has_room(*old(g), 1, true) ==> (r matches Err(e) && e is IdOverflow),
            r matches Ok(t) ==> appended_trigger(
                *old(g),
                *final(g),
                t,
                TriggerKind::Port(PortKind::Input),
                old(self).spec_id(),
            ),
            final(self).spec_id() == old(self).spec_id(),
            final(self).spec_num_reactions() == old(self).spec_num_reactions(),
            final(self).spec_reactions_done() == old(self).spec_reactions_done(),
    {
        self.new_component(g, name, TriggerKind::Port(PortKind::Input))
    }

    /// Creates an output port of this reactor.
    pub fn new_output_port(&mut self, g: &mut GlobalAssembler, name: &str) -> (r: Result<TriggerId,
        AssemblyError>)
        requires
            old(g).wf(),
        ensures
            final(g).wf(),
            final(g).spec_parents() == old(g).spec_parents(),
            old(self).name_taken(name@) ==> (r matches Err(AssemblyError::DuplicateName(n)) && n@ == name@),
            r is Err ==> final(g).spec_graph() == old(g).spec_graph() && *final(self) == *old(self),
            r is Ok ==> forall|n: Seq<char>| #[trigger] final(self).name_taken(n)
                <==> old(self).name_taken(n) || n == name@,
            !old(self).name_taken(name@) && has_room(*old(g), 1, true) ==> r is Ok,
            !old(self).name_taken(name@) && !has_room(*old(g), 1, true) ==> (r matches Err(e) && e is IdOverflow),
            r matches Ok(t) ==> appended_trigger(
                *old(g),
                *final(g),
                t,
                TriggerKind::Port(PortKind::Output),
                old(self).spec_id(),
            ),
            final(self).spec_id() == old(self).spec_id(),
            final(self).spec_num_reactions() == old(self).spec_num_reactions(),
            final(self).spec_reactions_done() == old(self).spec_reactions_done(),
    {
        self.new_component(g, name, TriggerKind::Port(PortKind::Output))
    }

    /// Creates a logical or physical action of this reactor, with a minimal
    /// delay in nanoseconds (none means zero).
    pub fn new_action(
        &mut self,
        g: &mut GlobalAssembler,
        name: &str,
        min_delay: Option<u64>,
        is_logical: bool,
    ) -> (r: Result<ActionId, AssemblyError>)
        requires
            old(g).wf(),
        ensures
            final(g).wf(),
            final(g).spec_parents() == old(g).spec_parents(),
            old(self).name_taken(name@) ==> (r matches Err(AssemblyError::DuplicateName(n)) && n@ == name@),
            r is Err ==> final(g).spec_graph() == old(g).spec_graph() && *final(self) == *old(self),
            r is Ok ==> forall|n: Seq<char>| #[trigger] final(self).name_taken(n)
                <==> old(self).name_taken(n) || n == name@,
            !old(self).name_taken(name@) && has_room(*old(g), 1, true) ==> r is Ok,
            !old(self).name_taken(name@) && !has_room(*old(g), 1, true) ==> (r matches Err(e) && e is IdOverflow),
            r matches Ok(a) ==> appended_trigger(
                *old(g),
                *final(g),
                a.id,
                if is_logical {
                    TriggerKind::LogicalAction
                } else {
                    TriggerKind::PhysicalAction
                },
                old(self).spec_id(),
            ) && a.is_logical == is_logical && a.min_delay == match min_delay {
                Some(d) => d,
                None => 0,
            },
            final(self).spec_id() == old(self).spec_id(),
            final(self).spec_num_reactions() == old(self).spec_num_reactions(),
            final(self).spec_reactions_done() == old(self).spec_reactions_done(),
    {
        let kind = if is_logical {
            TriggerKind::LogicalAction
        } else {
            TriggerKind::PhysicalAction
        };
        let id = self.new_component(g, name, kind)?;
        let delay = match min_delay {
            Some(d) => d,
            None => 0,
        };
        Ok(ActionId { id, min_delay: delay, is_logical })
    }

    /// Creates an input or an output port of this reactor.
    pub fn new_port(&mut self, g: &mut GlobalAssembler, name: &str,
        is_input: bool) -> (r: Result<TriggerId, AssemblyError>)
        requires
            old(g).wf(),
        ensures
            final(g).wf(),
            final(g).spec_parents() == old(g).spec_parents(),
            old(self).name_taken(name@) ==> (r matches Err(AssemblyError::DuplicateName(n)) && n@ == name@),
            r is Err ==> final(g).spec_graph() == old(g).spec_graph() && *final(self) == *old(self),
            r is Ok ==> forall|n: Seq<char>| #[trigger] final(self).name_taken(n)
                <==> old(self).name_taken(n) || n == name@,
            !old(self).name_taken(name@) && has_room(*old(g), 1, true) ==> r is Ok,
            !old(self).name_taken(name@) && !has_room(*old(g), 1, true) ==> (r matches Err(e) && e is IdOverflow),
            r matches Ok(t) ==> appended_trigger(
                *old(g),
                *final(g),
                t,
                TriggerKind::Port(if is_input { PortKind::Input } else { PortKind::Output }),
                old(self).spec_id(),
            ),
            final(self).spec_id() == old(self).spec_id(),
            final(self).spec_num_reactions() == old(self).spec_num_reactions(),
            final(self).spec_reactions_done() == old(self).spec_reactions_done(),
    {
        if is_input {
            self.new_input_port(g, name)
        } else {
            self.new_output_port(g, name)
        }
    }

    /// Creates a logical action of this reactor.
    pub fn new_logical_action(&mut self, g: &mut GlobalAssembler, name: &str,
        min_delay: Option<u64>) -> (r: Result<
        ActionId,
        AssemblyError,
    >)
        requires
            old(g).wf(),
        ensures
            final(g).wf(),
            final(g).spec_parents() == old(g).spec_parents(),
            old(self).name_taken(name@) ==> (r matches Err(AssemblyError::DuplicateName(n)) && n@ == name@),
            r is Err ==> final(g).spec_graph() == old(g).spec_graph() && *final(self) == *old(self),
            r is Ok ==> forall|n: Seq<char>| #[trigger] final(self).name_taken(n)
                <==> old(self).name_taken(n) || n == name@,
            !old(self).name_taken(name@) && has_room(*old(g), 1, true) ==> r is Ok,
            !old(self).name_taken(name@) && !has_room(*old(g), 1, true) ==> (r matches Err(e) && e is IdOverflow),
            r matches Ok(a) ==> appended_trigger(*old(g), *final(g), a.id,
                TriggerKind::LogicalAction, old(self).spec_id())
                && a.is_logical && a.min_delay == match min_delay {
                Some(d) => d,
                None => 0,
            },
            final(self).spec_id() == old(self).spec_id(),
            final(self).spec_num_reactions() == old(self).spec_num_reactions(),
            final(self).spec_reactions_done() == old(self).spec_reactions_done(),
    {
        self.new_action(g, name, min_delay, true)
    }

    /// Creates a physical action of this reactor, which other threads
    /// schedule.
    pub fn new_physical_action(&mut self, g: &mut GlobalAssembler, name: &str,
        min_delay: Option<u64>) -> (r: Result<
        ActionId,
        AssemblyError,
    >)
        requires
            old(g).wf(),
        ensures
            final(g).wf(),
            final(g).spec_parents() == old(g).spec_parents(),
            old(self).name_taken(name@) ==> (r matches Err(AssemblyError::DuplicateName(n)) && n@ == name@),
            r is Err ==> final(g).spec_graph() == old(g).spec_graph() && *final(self) == *old(self),
            r is Ok ==> forall|n: Seq<char>| #[trigger] final(self).name_taken(n)
                <==> old(self).name_taken(n) || n == name@,
            !old(self).name_taken(name@) && has_room(*old(g), 1, true) ==> r is Ok,
            !old(self).name_taken(name@) && !has_room(*old(g), 1, true) ==> (r matches Err(e) && e is IdOverflow),
            r matches Ok(a) ==> appended_trigger(*old(g), *final(g), a.id,
                TriggerKind::PhysicalAction, old(self).spec_id())
                && !a.is_logical && a.min_delay == match min_delay {
                Some(d) => d,
                None => 0,
            },
            final(self).spec_id() == old(self).spec_id(),
            final(self).spec_num_reactions() == old(self).spec_num_reactions(),
            final(self).spec_reactions_done() == old(self).spec_reactions_done(),
    {
        self.new_action(g, name, min_delay, false)
    }

    /// Creates a timer of this reactor (durations in nanoseconds).
    pub fn new_timer(&mut self, g: &mut GlobalAssembler, name: &str, offset: u64, period: u64) -> (r: Result<
        crate::timers::Timer,
        AssemblyError,
    >)
        requires
            old(g).wf(),
        ensures
            final(g).wf(),
            final(g).spec_parents() == old(g).spec_parents(),
            old(self).name_taken(name@) ==> (r matches Err(AssemblyError::DuplicateName(n)) && n@ == name@),
            r is Err ==> final(g).spec_graph() == old(g).spec_graph() && *final(self) == *old(self),
            r is Ok ==> forall|n: Seq<char>| #[trigger] final(self).name_taken(n)
                <==> old(self).name_taken(n) || n == name@,
            !old(self).name_taken(name@) && has_room(*old(g), 1, true) ==> r is Ok,
            !old(self).name_taken(name@) && !has_room(*old(g), 1, true) ==> (r matches Err(e) && e is IdOverflow),
            r matches Ok(tm) ==> appended_trigger(*old(g), *final(g), tm.id, TriggerKind::Timer,
                old(self).spec_id())
                && tm.offset == offset && tm.period == period,
            final(self).spec_id() == old(self).spec_id(),
            final(self).spec_num_reactions() == old(self).spec_num_reactions(),
            final(self).spec_reactions_done() == old(self).spec_reactions_done(),
    {
        let id = self.new_component(g, name, TriggerKind::Timer)?;
        Ok(crate::timers::Timer::new(id, offset, period))
    }

    /// Creates a bank of `len` ports of this reactor: the bank's own id,
    /// then one id per channel, each channel recorded as a member of the
    /// bank.
    pub fn new_port_bank(
        &mut self,
        g: &mut GlobalAssembler,
        name: &str,
        kind: PortKind,
        len: usize,
    ) -> (r: Result<PortBank, AssemblyError>)
        requires
            old(g).wf(),
        ensures
            final(g).wf(),
            final(g).spec_parents() == old(g).spec_parents(),
            old(self).name_taken(name@) ==> (r matches Err(AssemblyError::DuplicateName(n)) && n@ == name@),
            r is Err ==> final(g).spec_graph() == old(g).spec_graph() && *final(self) == *old(self),
            r is Ok ==> forall|n: Seq<char>| #[trigger] final(self).name_taken(n)
                <==> old(self).name_taken(n) || n == name@,
            !old(self).name_taken(name@) && has_room(*old(g), (len + 1) as nat, true) ==> r is Ok,
            !old(self).name_taken(name@) && !has_room(*old(g), (len + 1) as nat, true) ==> (r matches Err(e)
                && e is IdOverflow),
            r matches Ok(b) ==> {
                let t0 = old(g).spec_graph().spec_triggers().len();
                &&& b.id.0 == t0
                &&& b.channels@.len() == len
                &&& forall|i: int| 0 <= i < len ==> (#[trigger] b.channels@[i]).0 == t0 + 1 + i
                &&& final(g).spec_graph().spec_triggers() == old(g).spec_graph().spec_triggers().push(
                    TriggerInfo { kind: TriggerKind::PortBank(kind), owner: old(self).spec_id() },
                ) + Seq::new(len as nat, |i: int| TriggerInfo { kind: TriggerKind::Port(kind),
                    owner: old(self).spec_id() })
                &&& final(g).spec_graph().spec_reactions() == old(g).spec_graph().spec_reactions()
                &&& final(g).spec_graph().spec_edges() == old(g).spec_graph().spec_edges() + Seq::new(
                    len as nat,
                    |i: int|
                        crate::graph::DepEdge {
                            kind: EdgeKind::BankMember,
                            from: DepNode::Trigger(t0 as usize),
                            to: DepNode::Trigger((t0 + 1 + i) as usize),
                        },
                )
            },
            final(self).spec_id() == old(self).spec_id(),
            final(self).spec_num_reactions() == old(self).spec_num_reactions(),
            final(self).spec_reactions_done() == old(self).spec_reactions_done(),
    {
        let n = g.graph.trigger_count();
        let nr = g.graph.reaction_count();
        let total = n + nr;
        if self.has_name(name) {
            return Err(AssemblyError::DuplicateName(name.to_owned()));
        }
        if total > usize::MAX - 2 || len > usize::MAX - 2 - total || n > u32::MAX as usize - 2
            || len > u32::MAX
            as usize - 2 - n {
            return Err(AssemblyError::IdOverflow);
        }
        self.add_name(name);
        let ghost g0 = *g;
        let bank_res = g.graph.record_trigger(TriggerKind::PortBank(kind), self.id);
        proof {
            GlobalAssembler::lemma_wf_keeps(g0, *g);
        }
        let bank = match bank_res {
            Some(t) => t,
            None => return Err(AssemblyError::IdOverflow),
        };
        let ghost g1 = *g;
        let owner = self.id;
        let mut channels: Vec<TriggerId> = Vec::new();
        let mut i: usize = 0;
        while i < len
            invariant
                g.wf(),
                g1.wf(),
                owner == old(self).spec_id(),
                bank.0 == n,
                n == old(g).spec_graph().spec_triggers().len(),
                nr == old(g).spec_graph().spec_reactions().len(),
                n + nr + len <= usize::MAX - 2,
                n + len <= u32::MAX - 2,
                g1.spec_graph().spec_triggers() == old(g).spec_graph().spec_triggers().push(
                    TriggerInfo { kind: TriggerKind::PortBank(kind), owner },
                ),
                g1.spec_graph().spec_edges() == old(g).spec_graph().spec_edges(),
                g1.spec_graph().spec_reactions() == old(g).spec_graph().spec_reactions(),
                g.spec_parents() == old(g).spec_parents(),
                g.spec_slots() == old(g).spec_slots(),
                i <= len,
                channels@.len() == i,
                forall|j: int| 0 <= j < i ==> (#[trigger] channels@[j]).0 == n + 1 + j,
                g.spec_graph().spec_triggers() == g1.spec_graph().spec_triggers() + Seq::new(
                    i as nat,
                    |j: int| TriggerInfo { kind: TriggerKind::Port(kind), owner },
                ),
                g.spec_graph().spec_reactions() == g1.spec_graph().spec_reactions(),
                g.spec_graph().spec_edges() == g1.spec_graph().spec_edges() + Seq::new(
                    i as nat,
                    |j: int|
                        crate::graph::DepEdge {
                            kind: EdgeKind::BankMember,
                            from: DepNode::Trigger(n as usize),
                            to: DepNode::Trigger((n + 1 + j) as usize),
                        },
                ),
            decreases len - i,
        {
            let ghost g2 = *g;
            let ch = match g.graph.record_trigger(TriggerKind::Port(kind), owner) {
                Some(t) => t,
                None => {
                    proof {
                        assert(false);
                    }
                    return Err(AssemblyError::IdOverflow);
                },
            };
            g.graph.add_edge(EdgeKind::BankMember, DepNode::Trigger(bank.0 as usize),
                DepNode::Trigger(ch.0 as usize));
            proof {
                GlobalAssembler::lemma_wf_keeps(g2, *g);
            }
            channels.push(ch);
            proof {
                assert(g.spec_graph().spec_triggers() =~= g1.spec_graph().spec_triggers() + Seq::new(
                    (i + 1) as nat,
                    |j: int| TriggerInfo { kind: TriggerKind::Port(kind), owner },
                ));
                assert(g.spec_graph().spec_edges() =~= g1.spec_graph().spec_edges() + Seq::new(
                    (i + 1) as nat,
                    |j: int|
                        crate::graph::DepEdge {
                            kind: EdgeKind::BankMember,
                            from: DepNode::Trigger(n as usize),
                            to: DepNode::Trigger((n + 1 + j) as usize),
                        },
                ));
            }
            i = i + 1;
        }
        proof {
            assert(g.spec_graph().spec_triggers() =~= old(g).spec_graph().spec_triggers().push(
                TriggerInfo { kind: TriggerKind::PortBank(kind), owner },
            ) + Seq::new(len as nat, |j: int| TriggerInfo { kind: TriggerKind::Port(kind), owner }));
        }
        Ok(PortBank { id: bank, channels })
    }

    /// Starts the assembly of a direct sub-reactor named `name`, which gets
    /// the next reactor id (ids are preorder), and hands back its assembler.
    /// The caller assembles the child and registers it; `with_child` does
    /// both for a type implementing `Reactor`.
    pub fn new_subreactor(&mut self, g: &mut GlobalAssembler, name: &str) -> (r: Result<Assembler,
        AssemblyError>)
        requires
            old(g).wf(),
            old(self).valid_in(*old(g)),
        ensures
            final(g).wf(),
            final(g).spec_graph() == old(g).spec_graph(),
            final(g).spec_slots() == old(g).spec_slots(),
            final(self).spec_id() == old(self).spec_id(),
            final(self).spec_num_reactions() == old(self).spec_num_reactions(),
            final(self).spec_reactions_done() == old(self).spec_reactions_done(),
            final(self).valid_in(*final(g)),
            old(self).name_taken(name@) ==> (r matches Err(AssemblyError::DuplicateName(n)) && n@ == name@),
            !old(self).name_taken(name@) && old(g).spec_parents().len() < 65536 ==> r is Ok,
            !old(self).name_taken(name@) && old(g).spec_parents().len() >= 65536 ==> (r matches Err(e)
                && e is IdOverflow),
            r is Err ==> *final(g) == *old(g) && *final(self) == *old(self),
            r is Ok ==> final(g).spec_declared() == old(g).spec_declared().push(0),
            r is Ok ==> forall|n: Seq<char>| #[trigger] final(self).name_taken(n)
                <==> old(self).name_taken(n) || n == name@,
            r matches Ok(a) ==> a.spec_id().0 == old(g).spec_parents().len() && a.spec_parent() == Some(
                old(self).spec_id(),
            ) && a.spec_names().len() == 0 && !a.spec_reactions_done() && a.valid_in(*final(g))
                && final(g).spec_parents() == old(g).spec_parents().push(Some(old(self).spec_id()))
                && final(g).is_child(a.spec_id(), old(self).spec_id()),
    {
        if self.has_name(name) {
            return Err(AssemblyError::DuplicateName(name.to_owned()));
        }
        if g.parents.len() >= 65536 {
            return Err(AssemblyError::IdOverflow);
        }
        self.add_name(name);
        match g.allocate_reactor(Some(self.id)) {
            Some(id) => Ok(
                Assembler {
                    id,
                    parent: Some(self.id),
                    name: name.to_owned(),
                    local_names: Vec::new(),
                    num_reactions: 0,
                    reactions_done: false,
                },
            ),
            None => Err(AssemblyError::IdOverflow),
        }
    }

    /// Declares the `n` reactions of this reactor, with local ids `0..n`, in
    /// one call. The first `num_non_synthetic` are those declared by the
    /// user: each takes precedence over the next. The others are
    /// synthesized and exempt from that order.
    pub fn new_reactions(&mut self, g: &mut GlobalAssembler, n: u16, num_non_synthetic: u16) -> (r: Result<
        Vec<GlobalReactionId>,
        AssemblyError,
    >)
        requires
            old(g).wf(),
            old(self).valid_in(*old(g)),
            !old(self).spec_reactions_done(),
            num_non_synthetic <= n,
        ensures
            final(g).wf(),
            final(g).spec_parents() == old(g).spec_parents(),
            final(g).spec_slots() == old(g).spec_slots(),
            r is Ok ==> final(g).spec_declared() == old(g).spec_declared().update(old(self).spec_id().0 as int, n),
            r is Err ==> final(g).spec_declared() == old(g).spec_declared(),
            final(self).spec_id() == old(self).spec_id(),
            final(self).spec_names() == old(self).spec_names(),
            has_room(*old(g), n as nat, false) <==> r is Ok,
            r matches Err(e) ==> e is IdOverflow && final(g).spec_graph() == old(g).spec_graph()
                && *final(self)
                == *old(self),
            r matches Ok(v) ==> {
                let r0 = old(g).spec_graph().spec_reactions().len();
                &&& final(self).spec_reactions_done()
                &&& final(self).spec_num_reactions() == n
                &&& v@ == Seq::new(
                    n as nat,
                    |i: int| GlobalReactionId(crate::ids::GlobalId::spec_new(old(self).spec_id().0,
                        i as u16)),
                )
                &&& final(g).spec_graph().spec_triggers() == old(g).spec_graph().spec_triggers()
                &&& final(g).spec_graph().spec_reactions() == old(g).spec_graph().spec_reactions() + v@
                &&& final(g).spec_graph().spec_edges() == old(g).spec_graph().spec_edges() + priority_chain(
                    r0 as nat,
                    num_non_synthetic as nat,
                )
            },
    {
        let nt = g.graph.trigger_count();
        let r0 = g.graph.reaction_count();
        let total = nt + r0;
        if total == usize::MAX || n as usize > usize::MAX - 1 - total {
            return Err(AssemblyError::IdOverflow);
        }
        let mut result: Vec<GlobalReactionId> = Vec::new();
        let mut i: u16 = 0;
        while i < n
            invariant
                g.wf(),
                i <= n,
                num_non_synthetic <= n,
                nt == old(g).spec_graph().spec_triggers().len(),
                r0 == old(g).spec_graph().spec_reactions().len(),
                nt + r0 + n <= usize::MAX - 1,
                self.id == old(self).id,
                g.spec_declared() == old(g).spec_declared(),
                (self.id.0 as int) < g.spec_parents().len(),
                g.spec_parents() == old(g).spec_parents(),
                g.spec_slots() == old(g).spec_slots(),
                result@ == Seq::new(
                    i as nat,
                    |j: int| GlobalReactionId(crate::ids::GlobalId::spec_new(self.id.0, j as u16)),
                ),
                g.spec_graph().spec_triggers() == old(g).spec_graph().spec_triggers(),
                g.spec_graph().spec_reactions() == old(g).spec_graph().spec_reactions() + result@,
                g.spec_graph().spec_edges() == old(g).spec_graph().spec_edges() + priority_chain(
                    r0 as nat,
                    if i < num_non_synthetic {
                        i as nat
                    } else {
                        num_non_synthetic as nat
                    },
                ),
            decreases n - i,
        {
            let rid = GlobalReactionId::new(self.id, LocalReactionId(i));
            let ghost g_a = *g;
            let idx = match g.graph.record_reaction(rid) {
                Some(x) => x,
                None => {
                    proof {
                        assert(false);
                    }
                    return Err(AssemblyError::IdOverflow);
                },
            };
            proof {
                assert forall|x: GlobalReactionId| g_a.spec_graph().spec_reactions().contains(x)
                    implies #[trigger] g.spec_graph().spec_reactions().contains(x) by {
                    let j = choose|j: int| 0 <= j < g_a.spec_graph().spec_reactions().len()
                        && g_a.spec_graph().spec_reactions()[j] == x;
                    assert(g.spec_graph().spec_reactions()[j] == x);
                }
                GlobalAssembler::lemma_wf_grow(g_a, *g);
            }
            let ghost g_b = *g;
            if i > 0 && i < num_non_synthetic {
                g.graph.add_edge(EdgeKind::Priority, DepNode::Reaction(idx - 1), DepNode::Reaction(idx));
            }
            proof {
                GlobalAssembler::lemma_wf_keeps(g_b, *g);
            }
            result.push(rid);
            proof {
                let k: nat = if i < num_non_synthetic { i as nat } else { num_non_synthetic as nat };
                let k1: nat = if i + 1 < num_non_synthetic { (i + 1) as nat } else { num_non_synthetic as nat };
                if i > 0 && i < num_non_synthetic {
                    assert(priority_chain(r0 as nat, k1) =~= priority_chain(r0 as nat, k).push(
                        crate::graph::DepEdge {
                            kind: EdgeKind::Priority,
                            from: DepNode::Reaction((idx - 1) as usize),
                            to: DepNode::Reaction(idx),
                        },
                    ));
                } else {
                    assert(priority_chain(r0 as nat, k1) =~= priority_chain(r0 as nat, k));
                }
                assert(result@ =~= Seq::new(
                    (i + 1) as nat,
                    |j: int| GlobalReactionId(crate::ids::GlobalId::spec_new(self.id.0, j as u16)),
                ));
            }
            i = i + 1;
        }
        let ghost g_c = *g;
        let me = self.id.0 as usize;
        g.declared.set(me, n);
        proof {
            assert(g.spec_declared() == old(g).spec_declared().update(me as int, n));
            let rs = g.spec_graph().spec_reactions();
            assert forall|i: int| 0 <= i < n implies #[trigger] g.has_reaction(me as int, i) by {
                assert(rs[r0 + i] == result@[i]);
            }
            assert forall|c: int, i: int|
                0 <= c < g.spec_parents().len()
                    && 0 <= i < #[trigger] g.spec_declared()[c] implies #[trigger] g.has_reaction(
                c,
                i,
            ) by {
                if c != me as int {
                    assert(g_c.has_reaction(c, i));
                }
            }
            assert forall|c: int| 0 <= c < g.spec_slots().len() implies (#[trigger] g.spec_slots()[c] matches Some(r2)
                ==> g.agrees(c, r2)) by {
                if let Some(r2) = g.spec_slots()[c] {
                    assert(g_c.agrees(c, r2));
                    GlobalAssembler::lemma_agrees_later(g_c, *g, c, r2);
                }
            }
        }
        self.num_reactions = n;
        self.reactions_done = true;
        Ok(result)
    }

    /// Index of reaction `r` in the graph, where this reactor owns it.
    fn own_reaction(&self, g: &GlobalAssembler, r: GlobalReactionId) -> (res: Option<usize>)
        ensures
            res is Some <==> self.owns_reaction(*g, r),
            res matches Some(i) ==> i < g.spec_graph().spec_reactions().len()
                && g.spec_graph().spec_reactions()[i as int] == r,
    {
        if r.0.container() != self.id || r.0.local().0 >= self.num_reactions {
            return None;
        }
        g.graph.reaction_index(r)
    }

    /// Records a dependency of `reaction` on `t` in direction `kind`, where
    /// no rule forbids it.
    fn declare(&mut self, g: &mut GlobalAssembler, kind: DependencyKind,
        reaction: GlobalReactionId, t: TriggerId) -> (r:
        Result<(), AssemblyError>)
        requires
            old(g).wf(),
        ensures
            final(g).wf(),
            *final(self) == *old(self),
            final(g).spec_parents() == old(g).spec_parents(),
            final(g).spec_slots() == old(g).spec_slots(),
            final(g).spec_graph().spec_triggers() == old(g).spec_graph().spec_triggers(),
            final(g).spec_graph().spec_reactions() == old(g).spec_graph().spec_reactions(),
            declaration_outcome(*old(self), *old(g), *final(g), kind, reaction, t, r),
    {
        let i = match self.own_reaction(g, reaction) {
            Some(i) => i,
            None => return Err(
                AssemblyError::InvalidDependency(DependencyCause::ForeignReaction, reaction, kind, t),
            ),
        };
        let info = match g.graph.trigger_info(t) {
            Some(info) => info,
            None => return Err(
                AssemblyError::InvalidDependency(DependencyCause::UnknownTrigger, reaction, kind, t),
            ),
        };
        let me = self.id;
        let violation = match info.kind {
            TriggerKind::Port(_) | TriggerKind::PortBank(_) => match kind {
                DependencyKind::Affects => if !g.can_write(me, t) {
                    Some(DependencyCause::PortNotWritable)
                } else if g.graph.is_bound(t.0 as usize) {
                    Some(DependencyCause::PortAlreadyBound)
                } else {
                    None
                },
                _ => if !g.can_read(me, t) {
                    Some(DependencyCause::PortNotReadable)
                } else {
                    None
                },
            },
            TriggerKind::Startup => if kind == DependencyKind::Affects {
                Some(DependencyCause::NotAffectable)
            } else {
                None
            },
            _ => if info.owner != me {
                Some(DependencyCause::ForeignTrigger)
            } else {
                None
            },
        };
        if let Some(c) = violation {
            return Err(AssemblyError::InvalidDependency(c, reaction, kind, t));
        }
        let tn = DepNode::Trigger(t.0 as usize);
        let rn = DepNode::Reaction(i);
        let ghost g0 = *g;
        match kind {
            DependencyKind::Use => g.graph.add_edge(EdgeKind::Uses, tn, rn),
            DependencyKind::Triggers => g.graph.add_edge(EdgeKind::Triggers, tn, rn),
            DependencyKind::Affects => g.graph.add_edge(EdgeKind::Effects, rn, tn),
        }
        proof {
            GlobalAssembler::lemma_wf_keeps(g0, *g);
        }
        Ok(())
    }

    /// Records that trigger `t` (a readable port, startup, or an action or
    /// timer of this reactor) fires `reaction`.
    pub fn declare_triggers(&mut self, g: &mut GlobalAssembler, t: TriggerId,
        reaction: GlobalReactionId) -> (r: Result<
        (),
        AssemblyError,
    >)
        requires
            old(g).wf(),
        ensures
            final(g).wf(),
            *final(self) == *old(self),
            final(g).spec_parents() == old(g).spec_parents(),
            final(g).spec_graph().spec_triggers() == old(g).spec_graph().spec_triggers(),
            final(g).spec_graph().spec_reactions() == old(g).spec_graph().spec_reactions(),
            declaration_outcome(*old(self), *old(g), *final(g), DependencyKind::Triggers, reaction, t, r),
    {
        self.declare(g, DependencyKind::Triggers, reaction, t)
    }

    /// Records that `action`, an action of this reactor, fires `reaction`.
    pub fn action_triggers(&mut self, g: &mut GlobalAssembler, action: ActionId,
        reaction: GlobalReactionId) -> (r:
        Result<(), AssemblyError>)
        requires
            old(g).wf(),
        ensures
            final(g).wf(),
            *final(self) == *old(self),
            final(g).spec_parents() == old(g).spec_parents(),
            final(g).spec_graph().spec_triggers() == old(g).spec_graph().spec_triggers(),
            final(g).spec_graph().spec_reactions() == old(g).spec_graph().spec_reactions(),
            declaration_outcome(*old(self), *old(g), *final(g), DependencyKind::Triggers, reaction, action.id, r),
    {
        self.declare(g, DependencyKind::Triggers, reaction, action.id)
    }

    /// Records that `reaction` may schedule `action`, an action of this
    /// reactor.
    pub fn reaction_schedules(&mut self, g: &mut GlobalAssembler, reaction: GlobalReactionId,
        action: ActionId) -> (r:
        Result<(), AssemblyError>)
        requires
            old(g).wf(),
        ensures
            final(g).wf(),
            *final(self) == *old(self),
            final(g).spec_parents() == old(g).spec_parents(),
            final(g).spec_graph().spec_triggers() == old(g).spec_graph().spec_triggers(),
            final(g).spec_graph().spec_reactions() == old(g).spec_graph().spec_reactions(),
            declaration_outcome(*old(self), *old(g), *final(g), DependencyKind::Affects, reaction, action.id, r),
    {
        self.declare(g, DependencyKind::Affects, reaction, action.id)
    }

    /// Records that `reaction` reads trigger `t`: an input port of this
    /// reactor, an output port of a direct sub-reactor, startup, or an
    /// action or timer of this reactor.
    pub fn reaction_uses(&mut self, g: &mut GlobalAssembler, reaction: GlobalReactionId,
        t: TriggerId) -> (r: Result<
        (),
        AssemblyError,
    >)
        requires
            old(g).wf(),
        ensures
            final(g).wf(),
            *final(self) == *old(self),
            final(g).spec_parents() == old(g).spec_parents(),
            final(g).spec_graph().spec_triggers() == old(g).spec_graph().spec_triggers(),
            final(g).spec_graph().spec_reactions() == old(g).spec_graph().spec_reactions(),
            declaration_outcome(*old(self), *old(g), *final(g), DependencyKind::Use, reaction, t, r),
    {
        self.declare(g, DependencyKind::Use, reaction, t)
    }

    /// Records that `reaction` may set `port`: an output port of this
    /// reactor or an input port of a direct sub-reactor, not bound to an
    /// upstream port.
    pub fn reaction_affects(&mut self, g: &mut GlobalAssembler, reaction: GlobalReactionId,
        port: TriggerId) -> (r:
        Result<(), AssemblyError>)
        requires
            old(g).wf(),
        ensures
            final(g).wf(),
            *final(self) == *old(self),
            final(g).spec_parents() == old(g).spec_parents(),
            final(g).spec_graph().spec_triggers() == old(g).spec_graph().spec_triggers(),
            final(g).spec_graph().spec_reactions() == old(g).spec_graph().spec_reactions(),
            declaration_outcome(*old(self), *old(g), *final(g), DependencyKind::Affects, reaction, port, r),
    {
        self.declare(g, DependencyKind::Affects, reaction, port)
    }

    /// Records that `reaction` may set `port`; the same as
    /// `reaction_affects`.
    pub fn effects_port(&mut self, g: &mut GlobalAssembler, reaction: GlobalReactionId,
        port: TriggerId) -> (r: Result<
        (),
        AssemblyError,
    >)
        requires
            old(g).wf(),
        ensures
            final(g).wf(),
            *final(self) == *old(self),
            final(g).spec_parents() == old(g).spec_parents(),
            final(g).spec_graph().spec_triggers() == old(g).spec_graph().spec_triggers(),
            final(g).spec_graph().spec_reactions() == old(g).spec_graph().spec_reactions(),
            declaration_outcome(*old(self), *old(g), *final(g), DependencyKind::Affects, reaction, port, r),
    {
        self.declare(g, DependencyKind::Affects, reaction, port)
    }

    /// Records that `reaction` reads trigger `t`; the same as
    /// `reaction_uses`.
    pub fn declare_uses(&mut self, g: &mut GlobalAssembler, reaction: GlobalReactionId,
        t: TriggerId) -> (r: Result<
        (),
        AssemblyError,
    >)
        requires
            old(g).wf(),
        ensures
            final(g).wf(),
            *final(self) == *old(self),
            final(g).spec_parents() == old(g).spec_parents(),
            final(g).spec_graph().spec_triggers() == old(g).spec_graph().spec_triggers(),
            final(g).spec_graph().spec_reactions() == old(g).spec_graph().spec_reactions(),
            declaration_outcome(*old(self), *old(g), *final(g), DependencyKind::Use, reaction, t, r),
    {
        self.declare(g, DependencyKind::Use, reaction, t)
    }

    /// Records that `reaction` may set any channel of `bank`.
    pub fn effects_bank(&mut self, g: &mut GlobalAssembler, reaction: GlobalReactionId,
        bank: &PortBank) -> (r: Result<
        (),
        AssemblyError,
    >)
        requires
            old(g).wf(),
        ensures
            final(g).wf(),
            *final(self) == *old(self),
            final(g).spec_parents() == old(g).spec_parents(),
            final(g).spec_graph().spec_triggers() == old(g).spec_graph().spec_triggers(),
            final(g).spec_graph().spec_reactions() == old(g).spec_graph().spec_reactions(),
            declaration_outcome(*old(self), *old(g), *final(g), DependencyKind::Affects, reaction, bank.id, r),
    {
        self.declare(g, DependencyKind::Affects, reaction, bank.id)
    }

    /// Records that `reaction` reschedules `timer`, a timer of this
    /// reactor (used by the reaction synthesized for a periodic timer).
    pub fn effects_timer(
        &mut self,
        g: &mut GlobalAssembler,
        reaction: GlobalReactionId,
        timer: &crate::timers::Timer,
    ) -> (r: Result<(), AssemblyError>)
        requires
            old(g).wf(),
        ensures
            final(g).wf(),
            *final(self) == *old(self),
            final(g).spec_parents() == old(g).spec_parents(),
            final(g).spec_graph().spec_triggers() == old(g).spec_graph().spec_triggers(),
            final(g).spec_graph().spec_reactions() == old(g).spec_graph().spec_reactions(),
            declaration_outcome(*old(self), *old(g), *final(g), DependencyKind::Affects, reaction, timer.id, r),
    {
        self.declare(g, DependencyKind::Affects, reaction, timer.id)
    }

    /// Binds `upstream` to `downstream`: every value set on the first is
    /// reflected in the second. Legal where either `upstream` is an input
    /// port of this reactor and `downstream` an input port of a direct
    /// sub-reactor or an output port of this reactor; or `upstream` is an
    /// output port of a direct sub-reactor and `downstream` an input port of
    /// another direct sub-reactor or an output port of this reactor. In
    /// both cases `downstream` must not be bound yet.
    pub fn bind_ports(&mut self, g: &mut GlobalAssembler, upstream: TriggerId,
        downstream: TriggerId) -> (r: Result<
        (),
        AssemblyError,
    >)
        requires
            old(g).wf(),
        ensures
            final(g).wf(),
            *final(self) == *old(self),
            final(g).spec_parents() == old(g).spec_parents(),
            final(g).spec_slots() == old(g).spec_slots(),
            final(g).spec_graph().spec_triggers() == old(g).spec_graph().spec_triggers(),
            final(g).spec_graph().spec_reactions() == old(g).spec_graph().spec_reactions(),
            match old(g).binding_violation(old(self).spec_id(), upstream, downstream) {
                Some(c) => r matches Err(AssemblyError::InvalidBinding(c2, u2, d2)) && c2 == c
                    && u2 == upstream
                    && d2 == downstream && final(g).spec_graph() == old(g).spec_graph(),
                None => r is Ok && final(g).spec_graph().spec_edges() == old(g).spec_graph().spec_edges().push(
                    crate::graph::DepEdge {
                        kind: EdgeKind::Binding,
                        from: DepNode::Trigger(upstream.0 as usize),
                        to: DepNode::Trigger(downstream.0 as usize),
                    },
                ),
            },
    {
        let me = self.id;
        let (uk, dk) = match (g.kind_of_port(upstream), g.kind_of_port(downstream)) {
            (Some(uk), Some(dk)) => (uk, dk),
            _ => return Err(AssemblyError::InvalidBinding(BindingCause::NotAPort, upstream, downstream)),
        };
        let uo = g.graph.trigger_info(upstream).unwrap().owner;
        let d_o = g.graph.trigger_info(downstream).unwrap().owner;
        let rule = match uk {
            PortKind::Input => if uo != me {
                Some(BindingCause::UpstreamNotInThisReactor)
            } else if dk == PortKind::Input && !g.check_child(d_o, me) {
                Some(BindingCause::DownstreamNotInDirectSubreactor)
            } else if dk == PortKind::Output && d_o != me {
                Some(BindingCause::DownstreamNotInThisReactor)
            } else {
                None
            },
            PortKind::Output => if !g.check_child(uo, me) {
                Some(BindingCause::UpstreamNotInDirectSubreactor)
            } else if dk == PortKind::Input && (!g.check_child(d_o, me) || d_o == uo) {
                Some(BindingCause::DownstreamNotInOtherSubreactor)
            } else if dk == PortKind::Output && d_o != me {
                Some(BindingCause::DownstreamNotInThisReactor)
            } else {
                None
            },
        };
        if let Some(c) = rule {
            return Err(AssemblyError::InvalidBinding(c, upstream, downstream));
        }
        if g.graph.is_bound(downstream.0 as usize) {
            return Err(AssemblyError::InvalidBinding(BindingCause::AlreadyBound, upstream, downstream));
        }
        let ghost g0 = *g;
        g.graph.add_edge(
            EdgeKind::Binding,
            DepNode::Trigger(upstream.0 as usize),
            DepNode::Trigger(downstream.0 as usize),
        );
        proof {
            GlobalAssembler::lemma_wf_keeps(g0, *g);
        }
        Ok(())
    }

    /// Wraps an error raised while assembling this reactor, so that nested
    /// errors spell the path from the root.
    pub fn in_context(&self, e: AssemblyError) -> (r: AssemblyError)
        ensures
            r matches AssemblyError::InContext(id, inner) && id == self.spec_id() && *inner == e,
    {
        AssemblyError::InContext(self.id, Box::new(e))
    }

    /// Ends the assembly of this reactor.
    pub fn finish(self) -> (r: RunnableReactor)
        ensures
            r.global_id == self.spec_id(),
            r.parent == self.spec_parent(),
            r.num_reactions == self.spec_num_reactions(),
    {
        RunnableReactor { global_id: self.id, parent: self.parent, name: self.name,
            num_reactions: self.num_reactions }
    }
}

/// Priority edges between consecutive reactions among the first `k` ones
/// recorded from index `r0` on.
pub open spec fn priority_chain(r0: nat, k: nat) -> Seq<crate::graph::DepEdge> {
    if k <= 1 {
        Seq::empty()
    } else {
        Seq::new(
            (k - 1) as nat,
            |j: int|
                crate::graph::DepEdge {
                    kind: EdgeKind::Priority,
                    from: DepNode::Reaction((r0 + j) as usize),
                    to: DepNode::Reaction((r0 + j + 1) as usize),
                },
        )
    }
}

/// Binding an output port of a reactor to an input port of that same
/// reactor is refused: inside the reactor itself, because an upstream
/// output port must belong to a direct sub-reactor; inside its parent,
/// because the downstream input port must belong to a different direct
/// sub-reactor.
pub proof fn lemma_bind_output_to_own_input(g: GlobalAssembler, binder: ReactorId, up: TriggerId,
    down: TriggerId)
    requires
        g.wf(),
        g.port_kind(up) == Some(PortKind::Output),
        g.port_kind(down) == Some(PortKind::Input),
        g.trigger(up).owner == g.trigger(down).owner,
    ensures
        binder == g.trigger(up).owner ==> g.binding_violation(binder, up, down) == Some(
            BindingCause::UpstreamNotInDirectSubreactor,
        ),
        g.is_child(g.trigger(up).owner, binder) ==> g.binding_violation(binder, up, down) == Some(
            BindingCause::DownstreamNotInOtherSubreactor,
        ),
{
    let a = g.trigger(up).owner;
    if (a.0 as int) < g.spec_parents().len() {
        assert(g.spec_parents()[a.0 as int] matches Some(p) ==> p.0 < a.0);
    }
}

/// A binding whose ports satisfy the placement rules is still refused,
/// as already bound, where its downstream port is bound.
pub proof fn lemma_bind_already_bound(g: GlobalAssembler, binder: ReactorId, up: TriggerId, down: TriggerId)
    requires
        g.wf(),
        g.placement_violation(binder, up, down) is None,
        g.is_bound(down),
    ensures
        g.binding_violation(binder, up, down) == Some(BindingCause::AlreadyBound),
{
}

/// The assembled program: its schedule and its reactors, by id.
pub struct RunnableWorld {
    pub schedule: Schedule,
    pub reactors: Vec<RunnableReactor>,
}

/// Consumes the assembly into a runnable program. Fails where the
/// same-instant dependencies close a cycle, or where a reactor that got an
/// id was never registered.
pub fn make_world(g: GlobalAssembler) -> (r: Result<RunnableWorld, AssemblyError>)
    requires
        g.wf(),
    ensures
        r is Ok <==> crate::toposort::acyclic(g.spec_graph().n_nodes(), g.spec_graph().instant_edges()) && (
        forall|c: int|
            0 <= c < g.spec_parents().len() ==> c < g.spec_slots().len()
                && #[trigger] g.spec_slots()[c] is Some),
        r matches Ok(w) ==> w.reactors@.len() == g.spec_parents().len() && (forall|c: int|
            0 <= c < w.reactors@.len() ==> Some(#[trigger] w.reactors@[c]) == g.spec_slots()[c]
                && w.reactors@[c].global_id.0 == c && g.agrees(c, w.reactors@[c])
                && (w.reactors@[c].parent matches Some(p) ==> p.0 < c))
                && w.schedule.wf()
            && w.schedule.spec_reactions() == g.spec_graph().spec_reactions(),
        r matches Err(e) ==> e is CyclicDependency || e is MissingReactor,
        !crate::toposort::acyclic(g.spec_graph().n_nodes(), g.spec_graph().instant_edges()) ==> (r matches Err(
            AssemblyError::CyclicDependency(x),
        ) && crate::toposort::on_cycle(
            g.spec_graph().n_nodes(),
            g.spec_graph().instant_edges(),
            crate::graph::node_number(g.spec_graph().spec_triggers().len(), x) as usize,
        )),
{
    let GlobalAssembler { graph, parents, reactors, .. } = g;
    let schedule = match Schedule::from_graph(&graph) {
        Ok(s) => s,
        Err(node) => return Err(AssemblyError::CyclicDependency(node)),
    };
    let n = parents.len();
    let slots = slots_into_vec(reactors);
    let mut out: Vec<RunnableReactor> = Vec::new();
    let mut c: usize = 0;
    while c < n
        invariant
            c <= n,
            n == g.spec_parents().len(),
            n <= 65536,
            slots@ == g.spec_slots(),
            crate::toposort::acyclic(g.spec_graph().n_nodes(), g.spec_graph().instant_edges()),
            out@.len() == c,
            forall|j: int| 0 <= j < c ==> j < slots@.len() && Some(#[trigger] out@[j]) == slots@[j],
        decreases n - c,
    {
        if c >= slots.len() {
            return Err(AssemblyError::MissingReactor(ReactorId(c as u16)));
        }
        match &slots[c] {
            Some(r) => {
                out.push(r.duplicate());
            },
            None => {
                return Err(AssemblyError::MissingReactor(ReactorId(c as u16)));
            },
        }
        c = c + 1;
    }
    proof {
        assert forall|c: int| 0 <= c < g.spec_parents().len() implies c < g.spec_slots().len()
            && #[trigger] g.spec_slots()[c] is Some by {
            assert(Some(out@[c]) == slots@[c]);
        }
    }
    Ok(RunnableWorld { schedule, reactors: out })
}

} // verus!
