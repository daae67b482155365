use reactor_rt::assembler::{
    make_world, Assembler, AssemblyError, BindingCause, DependencyCause, DependencyKind, GlobalAssembler,
    RunnableReactor,
};
use reactor_rt::graph::{DepNode, PortKind, TriggerKind};
use reactor_rt::ids::{ReactorId, TriggerId};
use reactor_rt::port::{InPort, OutPort};

fn root() -> (GlobalAssembler, Assembler) {
    let mut g = GlobalAssembler::new();
    let a = Assembler::root(&mut g, "main").unwrap();
    (g, a)
}

#[test]
fn reactor_ids_are_preorder() {
    let (mut g, mut a) = root();
    assert_eq!(a.get_id(), ReactorId::new(0));
    let mut c1 = a.new_subreactor(&mut g, "c1").unwrap();
    let c11 = c1.new_subreactor(&mut g, "c11").unwrap();
    let c2 = a.new_subreactor(&mut g, "c2").unwrap();
    assert_eq!(c1.get_id(), ReactorId::new(1));
    assert_eq!(c11.get_id(), ReactorId::new(2));
    assert_eq!(c2.get_id(), ReactorId::new(3));
    assert_eq!(g.reactor_count(), 4);
}

#[test]
fn registry_accepts_out_of_order_registration() {
    let (mut g, mut a) = root();
    let mut c1 = a.new_subreactor(&mut g, "c1").unwrap();
    let c11 = c1.new_subreactor(&mut g, "c11").unwrap();
    // children finish before their parents
    assert!(g.register_reactor(c11.finish()).is_ok());
    assert!(g.register_reactor(c1.finish()).is_ok());
    assert!(g.register_reactor(a.finish()).is_ok());
    let w = make_world(g).ok().unwrap();
    assert_eq!(w.reactors.len(), 3);
    assert_eq!(w.reactors[0].global_id, ReactorId::new(0));
    assert_eq!(w.reactors[1].name, "c1");
    assert_eq!(w.reactors[2].parent, Some(ReactorId::new(1)));
}

#[test]
fn registry_refuses_double_registration_and_unknown_ids() {
    let (mut g, a) = root();
    let id = a.get_id();
    assert!(g.register_reactor(a.finish()).is_ok());
    let again = RunnableReactor { global_id: id, parent: None, name: "x".to_string(), num_reactions: 0 };
    assert!(matches!(g.register_reactor(again), Err(AssemblyError::DuplicateReactor(r)) if r == id));
    let unknown = RunnableReactor { global_id: ReactorId::new(9), parent: None, name: "y".to_string(), num_reactions: 0 };
    assert!(matches!(g.register_reactor(unknown), Err(AssemblyError::UnknownReactor(_))));
}

#[test]
fn unregistered_reactor_fails_world() {
    let (mut g, mut a) = root();
    let _c = a.new_subreactor(&mut g, "c").unwrap();
    assert!(g.register_reactor(a.finish()).is_ok());
    assert!(matches!(make_world(g), Err(AssemblyError::MissingReactor(r)) if r == ReactorId::new(1)));
}

#[test]
fn duplicate_names_are_refused() {
    let (mut g, mut a) = root();
    assert!(a.new_input_port(&mut g, "x").is_ok());
    assert!(matches!(a.new_output_port(&mut g, "x"), Err(AssemblyError::DuplicateName(n)) if n == "x"));
    assert!(matches!(a.new_subreactor(&mut g, "x"), Err(AssemblyError::DuplicateName(_))));
    assert!(matches!(a.new_action(&mut g, "x", None, true), Err(AssemblyError::DuplicateName(_))));
    assert!(a.new_output_port(&mut g, "y").is_ok());
}

#[test]
fn trigger_ids_come_from_one_counter() {
    let (mut g, mut a) = root();
    let p = a.new_input_port(&mut g, "p").unwrap();
    let mut c = a.new_subreactor(&mut g, "c").unwrap();
    let q = c.new_output_port(&mut g, "q").unwrap();
    let act = a.new_action(&mut g, "act", Some(5), false).unwrap();
    assert_eq!(p, TriggerId(1));
    assert_eq!(q, TriggerId(2));
    assert_eq!(act.id, TriggerId(3));
    assert_eq!(act.min_delay, 5);
    assert!(!act.is_logical);
    let info = g.flow_graph().trigger_info(act.id).unwrap();
    assert_eq!(info.kind, TriggerKind::PhysicalAction);
    assert_eq!(info.owner, ReactorId::new(0));
}

#[test]
fn port_bank_allocates_channels() {
    let (mut g, mut a) = root();
    let bank = a.new_port_bank(&mut g, "b", PortKind::Input, 3).unwrap();
    assert_eq!(bank.id, TriggerId(1));
    assert_eq!(bank.channels, vec![TriggerId(2), TriggerId(3), TriggerId(4)]);
    assert_eq!(g.flow_graph().trigger_count(), 5);
    assert_eq!(g.flow_graph().trigger_info(TriggerId(3)).unwrap().kind, TriggerKind::Port(PortKind::Input));
}

#[test]
fn reactions_get_local_ids_in_order() {
    let (mut g, mut a) = root();
    let rs = a.new_reactions(&mut g, 3, 3).unwrap();
    assert_eq!(rs.len(), 3);
    for (i, r) in rs.iter().enumerate() {
        assert_eq!(r.0.container(), ReactorId::new(0));
        assert_eq!(r.0.local().raw() as usize, i);
    }
    assert_eq!(g.flow_graph().reaction_count(), 3);
}

/// An output port of reactor A bound to an input port of A itself.
#[test]
fn binding_output_to_own_input_is_refused() {
    let (mut g, mut a) = root();
    let out = a.new_output_port(&mut g, "out").unwrap();
    let inp = a.new_input_port(&mut g, "in").unwrap();
    assert!(matches!(
        a.bind_ports(&mut g, out, inp),
        Err(AssemblyError::InvalidBinding(BindingCause::UpstreamNotInDirectSubreactor, u, d)) if u == out && d == inp
    ));
    // the same, declared by the parent of A
    let mut c = a.new_subreactor(&mut g, "c").unwrap();
    let c_out = c.new_output_port(&mut g, "out").unwrap();
    let c_in = c.new_input_port(&mut g, "in").unwrap();
    assert!(matches!(
        a.bind_ports(&mut g, c_out, c_in),
        Err(AssemblyError::InvalidBinding(BindingCause::DownstreamNotInOtherSubreactor, _, _))
    ));
}

#[test]
fn binding_twice_is_refused_as_already_bound() {
    let (mut g, mut a) = root();
    let mut c1 = a.new_subreactor(&mut g, "c1").unwrap();
    let mut c2 = a.new_subreactor(&mut g, "c2").unwrap();
    let o1 = c1.new_output_port(&mut g, "o").unwrap();
    let i2 = c2.new_input_port(&mut g, "i").unwrap();
    let inp = a.new_input_port(&mut g, "in").unwrap();
    assert!(a.bind_ports(&mut g, o1, i2).is_ok());
    assert!(matches!(
        a.bind_ports(&mut g, inp, i2),
        Err(AssemblyError::InvalidBinding(BindingCause::AlreadyBound, _, _))
    ));
}

#[test]
fn binding_rules() {
    let (mut g, mut a) = root();
    let mut c1 = a.new_subreactor(&mut g, "c1").unwrap();
    let mut c2 = a.new_subreactor(&mut g, "c2").unwrap();
    let mut c11 = c1.new_subreactor(&mut g, "c11").unwrap();
    let a_in = a.new_input_port(&mut g, "in").unwrap();
    let a_out = a.new_output_port(&mut g, "out").unwrap();
    let c1_in = c1.new_input_port(&mut g, "in").unwrap();
    let c1_out = c1.new_output_port(&mut g, "out").unwrap();
    let c2_in = c2.new_input_port(&mut g, "in").unwrap();
    let c11_in = c11.new_input_port(&mut g, "in").unwrap();
    let act = a.new_action(&mut g, "act", None, true).unwrap();
    let bind = |a: &mut Assembler, g: &mut GlobalAssembler, u, d| match a.bind_ports(g, u, d) {
        Ok(()) => None,
        Err(AssemblyError::InvalidBinding(c, _, _)) => Some(c),
        Err(_) => panic!("unexpected error"),
    };
    assert_eq!(bind(&mut a, &mut g, c1_in, c2_in), Some(BindingCause::UpstreamNotInThisReactor));
    assert_eq!(bind(&mut a, &mut g, a_in, c11_in), Some(BindingCause::DownstreamNotInDirectSubreactor));
    assert_eq!(bind(&mut c1, &mut g, c1_in, a_out), Some(BindingCause::DownstreamNotInThisReactor));
    assert_eq!(bind(&mut a, &mut g, act.id, c1_in), Some(BindingCause::NotAPort));
    assert_eq!(bind(&mut a, &mut g, a_in, c1_in), None);
    assert_eq!(bind(&mut a, &mut g, c1_out, a_out), None);
    assert_eq!(bind(&mut c1, &mut g, c1_in, c11_in), None);
    assert!(g.flow_graph().is_bound(c1_in.index()));
    assert!(!g.flow_graph().is_bound(c2_in.index()));
}

#[test]
fn dependency_rules() {
    let (mut g, mut a) = root();
    let mut c = a.new_subreactor(&mut g, "c").unwrap();
    let a_in = a.new_input_port(&mut g, "in").unwrap();
    let a_out = a.new_output_port(&mut g, "out").unwrap();
    let c_in = c.new_input_port(&mut g, "in").unwrap();
    let c_out = c.new_output_port(&mut g, "out").unwrap();
    let c_act = c.new_action(&mut g, "act", None, true).unwrap();
    let rs = a.new_reactions(&mut g, 1, 1).unwrap();
    let crs = c.new_reactions(&mut g, 1, 1).unwrap();
    let r = rs[0];
    let cause = |res: Result<(), AssemblyError>| match res {
        Ok(()) => None,
        Err(AssemblyError::InvalidDependency(c, _, _, _)) => Some(c),
        Err(_) => panic!("unexpected error"),
    };
    assert_eq!(cause(a.reaction_uses(&mut g, crs[0], a_in)), Some(DependencyCause::ForeignReaction));
    assert_eq!(cause(a.reaction_uses(&mut g, r, TriggerId(99))), Some(DependencyCause::UnknownTrigger));
    assert_eq!(cause(a.reaction_uses(&mut g, r, a_out)), Some(DependencyCause::PortNotReadable));
    assert_eq!(cause(a.reaction_uses(&mut g, r, c_in)), Some(DependencyCause::PortNotReadable));
    assert_eq!(cause(a.reaction_affects(&mut g, r, a_in)), Some(DependencyCause::PortNotWritable));
    assert_eq!(cause(a.reaction_affects(&mut g, r, c_out)), Some(DependencyCause::PortNotWritable));
    assert_eq!(cause(a.reaction_schedules(&mut g, r, c_act)), Some(DependencyCause::ForeignTrigger));
    assert_eq!(cause(a.reaction_affects(&mut g, r, TriggerId::startup())), Some(DependencyCause::NotAffectable));
    assert_eq!(cause(a.reaction_uses(&mut g, r, a_in)), None);
    assert_eq!(cause(a.reaction_uses(&mut g, r, c_out)), None);
    assert_eq!(cause(a.reaction_affects(&mut g, r, a_out)), None);
    assert_eq!(cause(a.reaction_affects(&mut g, r, c_in)), None);
    assert_eq!(cause(a.declare_triggers(&mut g, TriggerId::startup(), r)), None);
    let c2_in = {
        let mut c2 = a.new_subreactor(&mut g, "c2").unwrap();
        c2.new_input_port(&mut g, "in").unwrap()
    };
    assert!(a.bind_ports(&mut g, c_out, c2_in).is_ok());
    assert_eq!(cause(a.reaction_affects(&mut g, r, c2_in)), Some(DependencyCause::PortAlreadyBound));
    let err = a.reaction_uses(&mut g, r, a_out).err().unwrap();
    assert!(matches!(err, AssemblyError::InvalidDependency(_, rr, DependencyKind::Use, t) if rr == r && t == a_out));
}

#[test]
fn errors_nest_in_context() {
    let (mut g, mut a) = root();
    let c = a.new_subreactor(&mut g, "c").unwrap();
    let e = c.in_context(AssemblyError::IdOverflow);
    let e = a.in_context(e);
    match e {
        AssemblyError::InContext(outer, inner) => {
            assert_eq!(outer, ReactorId::new(0));
            assert!(matches!(*inner, AssemblyError::InContext(id, _) if id == ReactorId::new(1)));
        }
        _ => panic!("expected a context"),
    }
}

/// Child c: reaction rc uses c.in and sets c.out. Parent p: reaction rp
/// uses c.out; it closes the loop into c.in either directly or through a
/// logical action.
fn loop_program(through_action: bool) -> Result<reactor_rt::assembler::RunnableWorld, AssemblyError> {
    let (mut g, mut p) = root();
    let mut c = p.new_subreactor(&mut g, "c").unwrap();
    let c_in = c.new_input_port(&mut g, "in").unwrap();
    let c_out = c.new_output_port(&mut g, "out").unwrap();
    let crs = c.new_reactions(&mut g, 1, 1).unwrap();
    c.declare_triggers(&mut g, c_in, crs[0]).unwrap();
    c.reaction_affects(&mut g, crs[0], c_out).unwrap();
    if through_action {
        let act = p.new_action(&mut g, "act", Some(1_000), true).unwrap();
        // rs[0] forwards the action's value, rs[1] reads c.out
        let rs = p.new_reactions(&mut g, 2, 2).unwrap();
        p.action_triggers(&mut g, act, rs[0]).unwrap();
        p.reaction_affects(&mut g, rs[0], c_in).unwrap();
        p.reaction_uses(&mut g, rs[1], c_out).unwrap();
        p.reaction_schedules(&mut g, rs[1], act).unwrap();
    } else {
        let rs = p.new_reactions(&mut g, 1, 1).unwrap();
        p.reaction_uses(&mut g, rs[0], c_out).unwrap();
        p.reaction_affects(&mut g, rs[0], c_in).unwrap();
    }
    g.register_reactor(c.finish()).unwrap();
    g.register_reactor(p.finish()).unwrap();
    make_world(g)
}

#[test]
fn same_instant_cycle_is_rejected() {
    assert!(matches!(loop_program(false), Err(AssemblyError::CyclicDependency(_))));
}

#[test]
fn cycle_through_delayed_action_is_accepted() {
    let w = loop_program(true).ok().unwrap();
    assert!(w.schedule.len() > 0);
}

#[test]
fn cycle_error_names_a_node() {
    match loop_program(false) {
        Err(AssemblyError::CyclicDependency(DepNode::Trigger(t))) => assert!(t >= 1),
        Err(AssemblyError::CyclicDependency(DepNode::Reaction(_))) => {}
        _ => panic!("expected a cycle"),
    }
}

#[test]
fn typed_ports() {
    let (mut g, mut a) = root();
    let mut out: OutPort<u32> = OutPort::new(&mut a, &mut g, "out", 7).unwrap();
    let mut inp: InPort<u32> = InPort::new(&mut a, &mut g, "in").unwrap();
    assert_eq!(*out.get(), 7);
    out.set(9);
    assert_eq!(*out.get(), 9);
    *out.get_mut() += 1;
    assert_eq!(*out.get(), 10);
    assert!(!inp.is_bound());
    inp.bind(&out);
    assert!(inp.is_bound());
    assert_eq!(inp.borrow_or_panic(), out.id());
    assert!(InPort::<u32>::new(&mut a, &mut g, "out").is_err());
}

#[test]
fn builder_names() {
    let (mut g, mut a) = root();
    let p = a.new_port(&mut g, "p", true).unwrap();
    let q = a.new_port(&mut g, "q", false).unwrap();
    let la = a.new_logical_action(&mut g, "la", None).unwrap();
    let pa = a.new_physical_action(&mut g, "pa", Some(3)).unwrap();
    assert!(la.is_logical && la.min_delay == 0);
    assert!(!pa.is_logical && pa.min_delay == 3);
    assert_eq!(g.flow_graph().trigger_info(p).unwrap().kind, TriggerKind::Port(PortKind::Input));
    assert_eq!(g.flow_graph().trigger_info(q).unwrap().kind, TriggerKind::Port(PortKind::Output));
    assert_eq!(g.flow_graph().trigger_info(la.id).unwrap().kind, TriggerKind::LogicalAction);
    let rs = a.new_reactions(&mut g, 1, 1).unwrap();
    assert!(a.declare_uses(&mut g, rs[0], p).is_ok());
    assert!(a.effects_port(&mut g, rs[0], q).is_ok());
    assert!(matches!(
        a.effects_port(&mut g, rs[0], p),
        Err(AssemblyError::InvalidDependency(DependencyCause::PortNotWritable, _, DependencyKind::Affects, _))
    ));
    let bank = a.new_port_bank(&mut g, "bank", PortKind::Output, 2).unwrap();
    assert!(a.effects_bank(&mut g, rs[0], &bank).is_ok());
    let t = a.new_timer(&mut g, "t", 5, 0).unwrap();
    assert!(a.effects_timer(&mut g, rs[0], &t).is_ok());
    assert_eq!(g.flow_graph().trigger_info(t.id).unwrap().kind, TriggerKind::Timer);
}

struct Pipeline {
    source_out: TriggerId,
}

impl reactor_rt::world::WorldReactor for Pipeline {
    fn assemble(a: &mut Assembler, g: &mut GlobalAssembler) -> Result<Self, AssemblyError> {
        let mut src = a.new_subreactor(g, "source")?;
        let mut dst = a.new_subreactor(g, "sink")?;
        let out = src.new_output_port(g, "out")?;
        let inp = dst.new_input_port(g, "in")?;
        let srs = src.new_reactions(g, 1, 1)?;
        let drs = dst.new_reactions(g, 1, 1)?;
        src.declare_triggers(g, TriggerId::startup(), srs[0])?;
        src.reaction_affects(g, srs[0], out)?;
        dst.declare_triggers(g, inp, drs[0])?;
        a.bind_ports(g, out, inp)?;
        g.register_reactor(dst.finish())?;
        g.register_reactor(src.finish())?;
        Ok(Pipeline { source_out: out })
    }
}

struct Broken;

impl reactor_rt::world::WorldReactor for Broken {
    fn assemble(a: &mut Assembler, g: &mut GlobalAssembler) -> Result<Self, AssemblyError> {
        a.new_input_port(g, "x")?;
        a.new_input_port(g, "x")?;
        Ok(Broken)
    }
}

#[test]
fn world_assembly() {
    let (p, w) = reactor_rt::world::assemble_world::<Pipeline>("main").ok().unwrap();
    assert_eq!(w.reactors.len(), 3);
    assert_eq!(w.reactors[0].parent, None);
    assert_eq!(w.reactors[0].name, "main");
    for (i, r) in w.reactors.iter().enumerate() {
        assert_eq!(r.global_id.index(), i);
    }
    let s = &w.schedule;
    // setting the source's output fires the sink's reaction through the binding
    let fired: Vec<_> = s.downstream(p.source_out).iter().map(|q| s.reaction_at(*q).unwrap()).collect();
    assert_eq!(fired.len(), 1);
    assert_eq!(fired[0].0.container(), ReactorId::new(2));
    let startup: Vec<_> = s.downstream(TriggerId::startup()).iter().map(|q| s.reaction_at(*q).unwrap()).collect();
    assert_eq!(startup[0].0.container(), ReactorId::new(1));
    // the source's reaction comes before the sink's
    assert!(s.downstream(TriggerId::startup())[0] < s.downstream(p.source_out)[0]);
}

#[test]
fn world_assembly_error_has_context() {
    match reactor_rt::world::assemble_world::<Broken>("main") {
        Err(AssemblyError::InContext(id, inner)) => {
            assert_eq!(id, ReactorId::new(0));
            assert!(matches!(*inner, AssemblyError::DuplicateName(_)));
        }
        _ => panic!("expected an error in context"),
    }
}

#[test]
fn connected_port_reads_upstream_value() {
    let (mut g, mut a) = root();
    let mut c1 = a.new_subreactor(&mut g, "c1").unwrap();
    let mut c2 = a.new_subreactor(&mut g, "c2").unwrap();
    let mut out: OutPort<i32> = OutPort::new(&mut c1, &mut g, "out", 1).unwrap();
    let mut inp: InPort<i32> = InPort::new(&mut c2, &mut g, "in").unwrap();
    assert!(inp.connect(&mut a, &mut g, &out).is_ok());
    assert!(g.flow_graph().is_bound(inp.id().index()));
    out.set(42);
    assert_eq!(*inp.get(&out), 42);
    assert!(matches!(
        inp.connect(&mut a, &mut g, &out),
        Err(AssemblyError::InvalidBinding(BindingCause::AlreadyBound, _, _))
    ));
    // a binding that breaks a placement rule leaves the port unbound
    let mut other: InPort<i32> = InPort::new(&mut c1, &mut g, "in").unwrap();
    assert!(matches!(
        other.connect(&mut a, &mut g, &out),
        Err(AssemblyError::InvalidBinding(BindingCause::DownstreamNotInOtherSubreactor, _, _))
    ));
    assert!(!other.is_bound());
}

#[test]
fn cycle_error_names_a_node_on_the_cycle() {
    // every node but the startup trigger lies on the loop
    match loop_program(false) {
        Err(AssemblyError::CyclicDependency(DepNode::Trigger(t))) => assert!(t == 1 || t == 2),
        Err(AssemblyError::CyclicDependency(DepNode::Reaction(i))) => assert!(i <= 1),
        _ => panic!("expected a cycle"),
    }
}

#[test]
fn finish_world_registers_the_root() {
    let (mut g, mut a) = root();
    let c = a.new_subreactor(&mut g, "c").unwrap();
    g.register_reactor(c.finish()).unwrap();
    let bad = RunnableReactor { global_id: ReactorId::new(7), parent: None, name: "r".to_string(), num_reactions: 0 };
    assert!(matches!(reactor_rt::world::finish_world(g, bad), Err(AssemblyError::UnknownReactor(_))));
    let (mut g, mut a) = root();
    let c = a.new_subreactor(&mut g, "c").unwrap();
    g.register_reactor(c.finish()).unwrap();
    let w = reactor_rt::world::finish_world(g, a.finish()).ok().unwrap();
    assert_eq!(w.reactors.len(), 2);
    assert_eq!(w.reactors[0].name, "main");
    assert_eq!(w.reactors[1].parent, Some(ReactorId::new(0)));
}

struct Counter {
    out: TriggerId,
}

impl reactor_rt::world::Reactor for Counter {
    fn assemble(a: &mut Assembler, g: &mut GlobalAssembler) -> Result<Self, AssemblyError> {
        let out = a.new_output_port(g, "out")?;
        let rs = a.new_reactions(g, 2, 2)?;
        a.declare_triggers(g, TriggerId::startup(), rs[0])?;
        a.reaction_affects(g, rs[0], out)?;
        Ok(Counter { out })
    }
}

struct BrokenChild;

impl reactor_rt::world::Reactor for BrokenChild {
    fn assemble(a: &mut Assembler, g: &mut GlobalAssembler) -> Result<Self, AssemblyError> {
        a.new_output_port(g, "x")?;
        a.new_output_port(g, "x")?;
        Ok(BrokenChild)
    }
}

#[test]
fn with_child_assembles_and_registers() {
    let (mut g, mut a) = root();
    let c: Counter = a.with_child(&mut g, "counter").ok().unwrap();
    let d: Counter = a.with_child(&mut g, "other").ok().unwrap();
    assert_ne!(c.out, d.out);
    assert!(matches!(a.with_child::<Counter>(&mut g, "counter"), Err(AssemblyError::DuplicateName(n)) if n == "counter"));
    g.register_reactor(a.finish()).unwrap();
    let w = make_world(g).ok().unwrap();
    assert_eq!(w.reactors.len(), 3);
    assert_eq!(w.reactors[1].name, "counter");
    assert_eq!(w.reactors[1].parent, Some(ReactorId::new(0)));
    assert_eq!(w.reactors[1].num_reactions, 2);
    assert_eq!(w.reactors[2].parent, Some(ReactorId::new(0)));
    assert_eq!(w.schedule.downstream(TriggerId::startup()).len(), 2);
}

#[test]
fn failing_child_error_names_the_child() {
    let (mut g, mut a) = root();
    let _ok: Counter = a.with_child(&mut g, "first").ok().unwrap();
    match a.with_child::<BrokenChild>(&mut g, "broken") {
        Err(AssemblyError::InContext(id, inner)) => {
            assert_eq!(id, ReactorId::new(2));
            assert!(matches!(*inner, AssemblyError::DuplicateName(n) if n == "x"));
        }
        _ => panic!("expected the child's error in context"),
    }
}

#[test]
fn registry_refuses_inconsistent_records() {
    let (mut g, mut a) = root();
    let c = a.new_subreactor(&mut g, "c").unwrap();
    let wrong_parent = RunnableReactor { global_id: c.get_id(), parent: None, name: "c".to_string(), num_reactions: 0 };
    assert!(matches!(g.register_reactor(wrong_parent), Err(AssemblyError::InconsistentReactor(_))));
    let wrong_count =
        RunnableReactor { global_id: c.get_id(), parent: Some(ReactorId::new(0)), name: "c".to_string(), num_reactions: 3 };
    assert!(matches!(g.register_reactor(wrong_count), Err(AssemblyError::InconsistentReactor(_))));
    assert!(g.register_reactor(c.finish()).is_ok());
}

#[test]
fn error_messages() {
    let e = AssemblyError::InvalidBinding(BindingCause::AlreadyBound, TriggerId(3), TriggerId(7));
    assert_eq!(e.message(), "Invalid binding: downstream port is already bound (while binding '3' to '7')");
    let (mut g, mut a) = root();
    let rs = a.new_reactions(&mut g, 1, 1).unwrap();
    let e = a.reaction_uses(&mut g, rs[0], TriggerId(42)).err().unwrap();
    assert_eq!(e.message(), "Invalid dependency: trigger never allocated (for dependency '0/0' uses '42')");
    let e = AssemblyError::InContext(
        ReactorId::new(0),
        Box::new(AssemblyError::InContext(ReactorId::new(12), Box::new(AssemblyError::DuplicateName("x".to_string())))),
    );
    assert_eq!(e.message(), "While assembling 0: While assembling 12: Duplicate name 'x'");
    assert_eq!(AssemblyError::CyclicDependency(DepNode::Reaction(5)).message(), "Cyclic dependency: reaction 5");
    assert_eq!(AssemblyError::MissingReactor(ReactorId::new(4)).message(), "Reactor 4 was never registered");
}
