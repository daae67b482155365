//! Top-level reactors and the assembly of a whole program.
use crate::assembler::{make_world, Assembler, AssemblyError, GlobalAssembler, RunnableReactor, RunnableWorld};
use crate::ids::ReactorId;
use crate::graph::node_number;
use crate::toposort::{acyclic, on_cycle};
use vstd::prelude::*;

verus! {

/// A top-level reactor: it declares its sub-reactors and the connections
/// between them.
pub trait WorldReactor: Sized {
    /// Assembles the reactor with `a`, recording into `g`.
    fn assemble(a: &mut Assembler, g: &mut GlobalAssembler) -> (r: Result<Self, AssemblyError>)
        requires
            old(g).wf(),
            old(a).valid_in(*old(g)),
        ensures
            final(g).wf(),
    ;
}

/// A reactor assembled as a direct sub-reactor of another, through
/// `Assembler::with_child`.
pub trait Reactor: Sized {
    /// Assembles the reactor with `a`, recording into `g`.
    fn assemble(a: &mut Assembler, g: &mut GlobalAssembler) -> (r: Result<Self, AssemblyError>)
        requires
            old(g).wf(),
            old(a).valid_in(*old(g)),
        ensures
            final(g).wf(),
    ;
}

impl Assembler {
    /// Assembles a direct sub-reactor of type `S` named `name`: it gets the
    /// next reactor id (ids are preorder), `S::assemble` runs on its own
    /// assembler, and the finished child is registered in the slot of its
    /// id with its parent and the reactions it declared. An error of the
    /// child's own assembly comes wrapped in the context of the child's id.
    pub fn with_child<S: Reactor>(&mut self, g: &mut GlobalAssembler, name: &str) -> (r: Result<S, AssemblyError>)
        requires
            old(g).wf(),
            old(self).valid_in(*old(g)),
        ensures
            final(g).wf(),
            final(self).spec_id() == old(self).spec_id(),
            final(self).spec_num_reactions() == old(self).spec_num_reactions(),
            final(self).spec_reactions_done() == old(self).spec_reactions_done(),
            old(self).name_taken(name@) ==> (r matches Err(AssemblyError::DuplicateName(n)) && n@ == name@)
                && *final(g) == *old(g),
            !old(self).name_taken(name@) && old(g).spec_parents().len() >= 65536 ==> (r matches Err(e)
                && e is IdOverflow),
            r matches Err(AssemblyError::InContext(id, _)) ==> id.0 == old(g).spec_parents().len(),
            r matches Err(e) ==> e is DuplicateName || e is IdOverflow || e is InContext || e is UnknownReactor
                || e is InconsistentReactor || e is DuplicateReactor,
            r is Ok ==> {
                let c = old(g).spec_parents().len() as int;
                &&& final(self).valid_in(*final(g))
                &&& final(self).name_taken(name@)
                &&& c < final(g).spec_parents().len()
                &&& final(g).spec_parents()[c] == Some(old(self).spec_id())
                &&& c < final(g).spec_slots().len()
                &&& final(g).spec_slots()[c] matches Some(rec) && rec.global_id.0 == c && rec.parent == Some(
                    old(self).spec_id(),
                ) && rec.name@ == name@ && rec.num_reactions == final(g).spec_declared()[c] && forall|i: int|
                    0 <= i < rec.num_reactions ==> #[trigger] final(g).has_reaction(c, i)
            },
    {
        let mut child = self.new_subreactor(g, name)?;
        let id = child.get_id();
        let s = match S::assemble(&mut child, g) {
            Ok(s) => s,
            Err(e) => return Err(AssemblyError::InContext(id, Box::new(e))),
        };
        if id.0 as usize >= g.reactor_count() {
            return Err(AssemblyError::UnknownReactor(id));
        }
        let rec = g.record_for(id, name);
        match rec.parent {
            Some(p) => {
                if p != self.get_id() {
                    return Err(AssemblyError::InconsistentReactor(id));
                }
            },
            None => return Err(AssemblyError::InconsistentReactor(id)),
        }
        let ghost r0 = rec;
        g.register_reactor(rec)?;
        proof {
            assert(g.agrees(id.0 as int, r0));
        }
        Ok(s)
    }
}

/// Slot `c` of `g` is filled once `root` is registered.
pub open spec fn filled_with(g: GlobalAssembler, root: RunnableReactor, c: int) -> bool {
    c == root.global_id.0 || (c < g.spec_slots().len() && g.spec_slots()[c] is Some)
}

/// `root` can be registered in `g`: its id was handed out, it agrees with
/// the parent and number of reactions recorded for that id, and its slot
/// is free.
pub open spec fn registrable(g: GlobalAssembler, root: RunnableReactor) -> bool {
    &&& (root.global_id.0 as int) < g.spec_parents().len()
    &&& root.parent == g.spec_parents()[root.global_id.0 as int]
    &&& root.num_reactions == g.spec_declared()[root.global_id.0 as int]
    &&& !((root.global_id.0 as int) < g.spec_slots().len() && g.spec_slots()[root.global_id.0 as int] is Some)
}

/// Registers the finished `root` and consumes the assembly into a runnable
/// program, whose reactors stand at the index of their id.
pub fn finish_world(g: GlobalAssembler, root: RunnableReactor) -> (r: Result<RunnableWorld, AssemblyError>)
    requires
        g.wf(),
    ensures
        r is Ok <==> registrable(g, root) && acyclic(g.spec_graph().n_nodes(), g.spec_graph().instant_edges())
            && forall|c: int| 0 <= c < g.spec_parents().len() ==> #[trigger] filled_with(g, root, c),
        r matches Ok(w) ==> {
            &&& w.schedule.wf()
            &&& w.reactors@.len() == g.spec_parents().len()
            &&& w.reactors@[root.global_id.0 as int] == root
            &&& forall|c: int| 0 <= c < w.reactors@.len() ==> (#[trigger] w.reactors@[c]).global_id.0 == c
            &&& forall|c: int| 0 <= c < w.reactors@.len() ==> g.agrees(c, #[trigger] w.reactors@[c])
            &&& forall|c: int| 0 <= c < w.reactors@.len() ==> (#[trigger] w.reactors@[c]).parent
                == g.spec_parents()[c] && (w.reactors@[c].parent matches Some(p) ==> p.0 < c)
            &&& forall|c: int|
                0 <= c < w.reactors@.len() && c != root.global_id.0 ==> Some(#[trigger] w.reactors@[c])
                    == g.spec_slots()[c]
        },
        r matches Err(e) ==> {
            &&& !registrable(g, root) ==> (e is UnknownReactor || e is InconsistentReactor || e is DuplicateReactor)
            &&& registrable(g, root) && !acyclic(g.spec_graph().n_nodes(), g.spec_graph().instant_edges())
                ==> (e matches AssemblyError::CyclicDependency(x) && on_cycle(
                g.spec_graph().n_nodes(),
                g.spec_graph().instant_edges(),
                node_number(g.spec_graph().spec_triggers().len(), x) as usize,
            ))
            &&& e is UnknownReactor || e is InconsistentReactor || e is DuplicateReactor || e is CyclicDependency
                || e is MissingReactor
        },
{
    let mut g = g;
    let ghost g0 = g;
    let ghost root0 = root;
    g.register_reactor(root)?;
    proof {
        assert forall|c: int| 0 <= c < g0.spec_parents().len() implies (#[trigger] filled_with(g0, root0, c))
            == (c < g.spec_slots().len() && g.spec_slots()[c] is Some) by {
            if c != root0.global_id.0 && c < g0.spec_slots().len() {
                assert(g.spec_slots()[c] == g0.spec_slots()[c]);
            }
        }
    }
    let ghost g1 = g;
    let r = make_world(g);
    proof {
        if forall|c: int| 0 <= c < g0.spec_parents().len() ==> #[trigger] filled_with(g0, root0, c) {
            assert forall|c: int| 0 <= c < g1.spec_parents().len() implies c < g1.spec_slots().len()
                && #[trigger] g1.spec_slots()[c] is Some by {
                assert(filled_with(g0, root0, c));
            }
        }
        if r is Ok {
            assert forall|c: int| 0 <= c < g0.spec_parents().len() implies #[trigger] filled_with(g0, root0, c) by {
                assert(c < g1.spec_slots().len() && g1.spec_slots()[c] is Some);
            }
        }
    }
    r
}

/// Builds a top-level reactor of type `R` named `name`: assembles it with
/// the root assembler (reactor id 0, no parent), registers the root, and
/// consumes the assembly into a runnable program. An error of the
/// reactor's own assembly comes wrapped in the context of the root.
pub fn assemble_world<R: WorldReactor>(name: &str) -> (r: Result<(R, RunnableWorld), AssemblyError>)
    ensures
        r matches Ok((_, w)) ==> {
            &&& w.schedule.wf()
            &&& w.reactors@.len() >= 1
            &&& forall|c: int| 0 <= c < w.reactors@.len() ==> (#[trigger] w.reactors@[c]).global_id.0 == c
            &&& forall|c: int| 0 <= c < w.reactors@.len() ==> ((#[trigger] w.reactors@[c]).parent matches Some(p)
                ==> p.0 < c)
            &&& w.reactors@[0].parent is None
            &&& w.reactors@[0].name@ == name@
        },
        r matches Err(e) ==> e is InContext || e is UnknownReactor || e is InconsistentReactor
            || e is DuplicateReactor
            || e is CyclicDependency
            || e is MissingReactor,
        r matches Err(AssemblyError::InContext(id, _)) ==> id == ReactorId(0),
{
    let mut g = GlobalAssembler::new();
    let mut a = match Assembler::root(&mut g, name) {
        Ok(a) => a,
        Err(e) => {
            proof {
                assert(false);
            }
            return Err(e);
        },
    };
    let root_id = a.get_id();
    let me = match R::assemble(&mut a, &mut g) {
        Ok(me) => me,
        Err(e) => return Err(AssemblyError::InContext(root_id, Box::new(e))),
    };
    if root_id.0 as usize >= g.reactor_count() {
        return Err(AssemblyError::UnknownReactor(root_id));
    }
    let root = g.record_for(root_id, name);
    if root.parent.is_some() {
        return Err(AssemblyError::InconsistentReactor(root_id));
    }
    let w = finish_world(g, root)?;
    Ok((me, w))
}

} // verus!
