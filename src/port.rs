//! Typed ports. An output port owns its current value; an input port knows
//! the output port it reads from once bound.
use crate::assembler::{Assembler, AssemblyError, GlobalAssembler};
use crate::ids::TriggerId;
use std::marker::PhantomData;
use vstd::prelude::*;

verus! {

/// An output port and its current value.
#[derive(Debug)]
pub struct OutPort<T> {
    id: TriggerId,
    value: T,
}

/// An input port, bound to the output port it reads from.
#[derive(Debug)]
pub struct InPort<T> {
    id: TriggerId,
    binding: Option<TriggerId>,
    _value: PhantomData<T>,
}

impl<T> OutPort<T> {
    pub closed spec fn spec_id(&self) -> TriggerId {
        self.id
    }

    pub closed spec fn value(&self) -> T {
        self.value
    }

    /// Creates an output port of the reactor `a` assembles, holding
    /// `initial_val`.
    pub fn new(a: &mut Assembler, g: &mut GlobalAssembler, name: &str, initial_val: T) -> (r: Result<
        OutPort<T>,
        AssemblyError,
    >)
        requires
            old(g).wf(),
        ensures
            final(g).wf(),
            old(a).name_taken(name@) ==> (r matches Err(AssemblyError::DuplicateName(n)) && n@ == name@),
            !old(a).name_taken(name@) && crate::assembler::has_room(*old(g), 1, true) ==> r is Ok,
            !old(a).name_taken(name@) && !crate::assembler::has_room(*old(g), 1, true) ==> (r matches Err(e)
                && e is IdOverflow),
            r matches Ok(p) ==> p.value() == initial_val && crate::assembler::appended_trigger(
                *old(g),
                *final(g),
                p.spec_id(),
                crate::graph::TriggerKind::Port(crate::graph::PortKind::Output),
                old(a).spec_id(),
            ),
    {
        let id = a.new_output_port(g, name)?;
        Ok(OutPort { id, value: initial_val })
    }

    pub fn id(&self) -> (r: TriggerId)
        ensures
            r == self.spec_id(),
    {
        self.id
    }

    /// Replaces the value.
    pub fn set(&mut self, new_val: T)
        ensures
            final(self).value() == new_val,
            final(self).spec_id() == old(self).spec_id(),
    {
        self.value = new_val;
    }

    pub fn get(&self) -> (r: &T)
        ensures
            *r == self.value(),
    {
        &self.value
    }

    pub fn get_mut(&mut self) -> (r: &mut T)
        ensures
            *r == old(self).value(),
            final(self).value() == *final(r),
            final(self).spec_id() == old(self).spec_id(),
    {
        &mut self.value
    }
}

impl<T> InPort<T> {
    pub closed spec fn spec_id(&self) -> TriggerId {
        self.id
    }

    pub closed spec fn spec_binding(&self) -> Option<TriggerId> {
        self.binding
    }

    /// Creates an unbound input port of the reactor `a` assembles.
    pub fn new(a: &mut Assembler, g: &mut GlobalAssembler, name: &str) -> (r: Result<InPort<T>,
        AssemblyError>)
        requires
            old(g).wf(),
        ensures
            final(g).wf(),
            old(a).name_taken(name@) ==> (r matches Err(AssemblyError::DuplicateName(n)) && n@ == name@),
            !old(a).name_taken(name@) && crate::assembler::has_room(*old(g), 1, true) ==> r is Ok,
            !old(a).name_taken(name@) && !crate::assembler::has_room(*old(g), 1, true) ==> (r matches Err(e)
                && e is IdOverflow),
            r matches Ok(p) ==> p.spec_binding() is None && crate::assembler::appended_trigger(
                *old(g),
                *final(g),
                p.spec_id(),
                crate::graph::TriggerKind::Port(crate::graph::PortKind::Input),
                old(a).spec_id(),
            ),
    {
        let id = a.new_input_port(g, name)?;
        Ok(InPort { id, binding: None, _value: PhantomData })
    }

    pub fn id(&self) -> (r: TriggerId)
        ensures
            r == self.spec_id(),
    {
        self.id
    }

    pub fn is_bound(&self) -> (r: bool)
        ensures
            r == self.spec_binding() is Some,
    {
        self.binding.is_some()
    }

    /// Binds this port to the output port it reads from. A port is bound
    /// once.
    pub fn bind(&mut self, binding: &OutPort<T>)
        requires
            old(self).spec_binding() is None,
        ensures
            final(self).spec_binding() == Some(binding.spec_id()),
            final(self).spec_id() == old(self).spec_id(),
    {
        self.binding = Some(binding.id);
    }

    /// Binds this port to `upstream` in the assembly of reactor `a`, under
    /// the rules of `Assembler::bind_ports`, and remembers the binding so
    /// that `get` reads the upstream value.
    pub fn connect(&mut self, a: &mut Assembler, g: &mut GlobalAssembler, upstream: &OutPort<T>) -> (r: Result<
        (),
        AssemblyError,
    >)
        requires
            old(g).wf(),
        ensures
            final(g).wf(),
            final(self).spec_id() == old(self).spec_id(),
            old(self).spec_binding() is Some ==> (r matches Err(AssemblyError::InvalidBinding(c, _, _))
                && c == crate::assembler::BindingCause::AlreadyBound) && *final(g) == *old(g) && *final(self)
                == *old(self),
            old(self).spec_binding() is None ==> match old(g).binding_violation(
                old(a).spec_id(),
                upstream.spec_id(),
                old(self).spec_id(),
            ) {
                Some(c) => (r matches Err(AssemblyError::InvalidBinding(c2, _, _)) && c2 == c)
                    && final(g).spec_graph() == old(g).spec_graph() && *final(self) == *old(self),
                None => r is Ok && final(self).spec_binding() == Some(upstream.spec_id())
                    && final(g).spec_graph().spec_edges() == old(g).spec_graph().spec_edges().push(
                    crate::graph::DepEdge {
                        kind: crate::graph::EdgeKind::Binding,
                        from: crate::graph::DepNode::Trigger(upstream.spec_id().0 as usize),
                        to: crate::graph::DepNode::Trigger(old(self).spec_id().0 as usize),
                    },
                ),
            },
    {
        if self.binding.is_some() {
            return Err(
                AssemblyError::InvalidBinding(crate::assembler::BindingCause::AlreadyBound, upstream.id, self.id),
            );
        }
        a.bind_ports(g, upstream.id, self.id)?;
        self.binding = Some(upstream.id);
        Ok(())
    }

    /// The value this port reads: that of the output port it is bound to.
    pub fn get<'a>(&self, upstream: &'a OutPort<T>) -> (r: &'a T)
        requires
            self.spec_binding() == Some(upstream.spec_id()),
        ensures
            *r == upstream.value(),
    {
        upstream.get()
    }

    /// The output port this port reads from.
    pub fn borrow_or_panic(&self) -> (r: TriggerId)
        requires
            self.spec_binding() is Some,
        ensures
            self.spec_binding() == Some(r),
    {
        match self.binding {
            Some(b) => b,
            None => self.id,
        }
    }
}

} // verus!
