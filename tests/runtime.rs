use reactor_rt::assembler::{make_world, ActionId, Assembler, GlobalAssembler, RunnableWorld};
use reactor_rt::ids::{GlobalReactionId, TriggerId};
use reactor_rt::schedule::Schedule;
use reactor_rt::event_queue::{Event, EventQueue};
use reactor_rt::scheduler::{Step, SyncScheduler};
use reactor_rt::wave::ReactionWave;
use reactor_rt::time::LogicalTime;
use reactor_rt::timers::Timer;

/// One reactor with reactions r1, r2, r3 declared in that order, each
/// triggered by its own logical action; a fourth action triggers r2 too.
struct Program {
    world: RunnableWorld,
    actions: Vec<ActionId>,
    reactions: Vec<GlobalReactionId>,
}

fn program() -> Program {
    let mut g = GlobalAssembler::new();
    let mut a = Assembler::root(&mut g, "main").unwrap();
    let mut actions = Vec::new();
    for name in ["a1", "a2", "a3", "a4"] {
        actions.push(a.new_action(&mut g, name, Some(10), true).unwrap());
    }
    let reactions = a.new_reactions(&mut g, 3, 3).unwrap();
    for k in 0..3 {
        a.action_triggers(&mut g, actions[k], reactions[k]).unwrap();
    }
    a.action_triggers(&mut g, actions[3], reactions[1]).unwrap();
    g.register_reactor(a.finish()).unwrap();
    let world = make_world(g).ok().unwrap();
    Program { world, actions, reactions }
}

fn run_all(wave: &mut ReactionWave, schedule: &Schedule) -> Vec<GlobalReactionId> {
    let mut out = Vec::new();
    while let Some(p) = wave.next_reaction() {
        out.push(schedule.reaction_at(p).unwrap());
    }
    out
}

fn event(schedule: &Schedule, action: &ActionId, tag: LogicalTime) -> Event {
    Event { process_at: tag, todo: schedule.downstream(action.id) }
}

#[test]
fn same_tag_runs_in_declaration_order() {
    let p = program();
    let tag = LogicalTime::new(50, 0);
    let events: Vec<Event> = [2usize, 1, 0].iter().map(|k| event(&p.world.schedule, &p.actions[*k], tag)).collect();
    let mut sched = SyncScheduler::new(p.world.schedule);
    // the triggers arrive in reverse order
    for e in events {
        assert!(sched.push_event(e));
    }
    match sched.step(50) {
        Step::Run(mut w) => {
            assert_eq!(w.logical_time(), tag);
            assert_eq!(run_all(&mut w, sched.schedule()), p.reactions);
        }
        _ => panic!("expected a wave"),
    }
}

#[test]
fn diamond_fires_once() {
    let p = program();
    let tag = LogicalTime::new(7, 0);
    let e2 = event(&p.world.schedule, &p.actions[1], tag);
    let e4 = event(&p.world.schedule, &p.actions[3], tag);
    let d = p.world.schedule.downstream(p.actions[1].id);
    let mut sched = SyncScheduler::new(p.world.schedule);
    // a2 and a4 both trigger r2
    assert!(sched.push_event(e2));
    assert!(sched.push_event(e4));
    match sched.step(7) {
        Step::Run(mut w) => {
            w.enqueue_now(&d);
            assert_eq!(run_all(&mut w, sched.schedule()), vec![p.reactions[1]]);
            // enqueuing it again within the same wave does nothing
            w.enqueue_now(&d);
            assert_eq!(w.next_reaction(), None);
        }
        _ => panic!("expected a wave"),
    }
}

#[test]
fn wave_hands_out_increasing_positions() {
    let mut w = ReactionWave::new(LogicalTime::new(0, 0), 10);
    w.enqueue_now(&vec![7, 3, 9, 3, 42]);
    w.enqueue_now(&vec![1, 7]);
    assert_eq!(w.next_reaction(), Some(1));
    w.enqueue_now(&vec![1, 2]);
    assert_eq!(w.next_reaction(), Some(2));
    assert_eq!(w.next_reaction(), Some(3));
    assert_eq!(w.next_reaction(), Some(7));
    assert_eq!(w.next_reaction(), Some(9));
    assert_eq!(w.next_reaction(), None);
}

#[test]
fn events_come_out_in_tag_order() {
    let mut q = EventQueue::new();
    for (i, m) in [(30u64, 0u64), (10, 2), (20, 0), (10, 1)] {
        assert!(q.push(Event { process_at: LogicalTime::new(i, m), todo: vec![] }));
    }
    let mut tags = Vec::new();
    while let Some(e) = q.pop() {
        tags.push(e.process_at);
    }
    assert_eq!(
        tags,
        vec![LogicalTime::new(10, 1), LogicalTime::new(10, 2), LogicalTime::new(20, 0), LogicalTime::new(30, 0)]
    );
    assert_eq!(q.peek_tag(), None);
}

#[test]
fn processed_tags_strictly_increase() {
    let p = program();
    let stale = event(&p.world.schedule, &p.actions[0], LogicalTime::new(40, 0));
    let e1 = event(&p.world.schedule, &p.actions[1], LogicalTime::new(100, 1));
    let e2 = event(&p.world.schedule, &p.actions[2], LogicalTime::new(100, 2));
    let mut sched = SyncScheduler::new(p.world.schedule);
    let start = sched.start(100, &vec![]);
    let mut last = start.logical_time();
    // a stale event, and two for the same instant the clock still reads
    assert!(sched.push_event(stale));
    assert!(sched.push_event(e1));
    assert!(sched.push_event(e2));
    let mut count = 0;
    loop {
        match sched.step(100) {
            Step::Run(w) => {
                assert!(last.lt(&w.logical_time()));
                last = w.logical_time();
                count += 1;
            }
            Step::Idle => break,
            Step::Sleep(_) => panic!("the clock is past every event"),
        }
    }
    assert_eq!(count, 3);
    assert_eq!(last, LogicalTime::new(100, 3));
    assert!(sched.can_stop_on_timeout());
}

#[test]
fn physical_action_catches_up() {
    let p = program();
    let d = p.world.schedule.downstream(p.actions[0].id);
    let mut sched = SyncScheduler::new(p.world.schedule);
    let link = sched.link();
    let last = LogicalTime::new(5_000, 3);
    // a1 has a minimal delay of 10 ns; ask for 990 more
    let e = link.schedule_physical(&p.actions[0], 990, last).unwrap();
    assert_eq!(e.process_at, LogicalTime::new(6_000, 0));
    assert_eq!(e.todo, d);
    assert!(!e.todo.is_empty());
    assert!(sched.push_event(e));
    assert!(matches!(sched.step(5_500), Step::Sleep(500)));
    match sched.step(6_200) {
        Step::Run(w) => assert_eq!(w.logical_time(), LogicalTime::new(6_200, 0)),
        _ => panic!("expected a wave"),
    }
    assert!(link.schedule_physical(&p.actions[0], u64::MAX, last).is_none());
}

#[test]
fn logical_action_lands_after_the_wave() {
    let p = program();
    let s = &p.world.schedule;
    let w = ReactionWave::new(LogicalTime::new(20, 4), s.len());
    let e = w.schedule_action(s, &p.actions[2], 0).unwrap();
    assert_eq!(e.process_at, LogicalTime::new(30, 0));
    assert_eq!(e.todo, s.downstream(p.actions[2].id));
    let zero = ActionId { id: p.actions[2].id, min_delay: 0, is_logical: true };
    assert_eq!(w.schedule_action(s, &zero, 0).unwrap().process_at, LogicalTime::new(20, 5));
}

#[test]
fn shutdown_stops_after_the_wave() {
    let mut sched = SyncScheduler::new(program().world.schedule);
    let mut w = sched.start(0, &vec![]);
    assert!(!sched.is_stopped());
    w.request_shutdown();
    assert!(w.shutdown_requested());
    sched.finish_wave(&w);
    assert!(sched.is_stopped());
}

#[test]
fn periodic_timer_fires_every_period() {
    let mut g = GlobalAssembler::new();
    let mut a = Assembler::root(&mut g, "main").unwrap();
    let t = a.new_timer(&mut g, "t", 0, 100).unwrap();
    let rs = a.new_reactions(&mut g, 2, 1).unwrap();
    // rs[0] is the user's reaction, rs[1] reschedules the timer
    a.declare_triggers(&mut g, t.id, rs[0]).unwrap();
    a.declare_triggers(&mut g, t.id, rs[1]).unwrap();
    a.effects_timer(&mut g, rs[1], &t).unwrap();
    g.register_reactor(a.finish()).unwrap();
    let world = make_world(g).ok().unwrap();
    let d = world.schedule.downstream(t.id);
    let expected: Vec<GlobalReactionId> = d.iter().map(|p| world.schedule.reaction_at(*p).unwrap()).collect();
    assert_eq!(expected, rs);
    assert!(t.is_periodic());

    let mut sched = SyncScheduler::new(world.schedule);
    let mut w = sched.start(0, &vec![t]);
    assert_eq!(run_all(&mut w, sched.schedule()), expected);
    let mut due = w.logical_time();
    for k in 1..=3u64 {
        due = t.next_event(due).unwrap();
        assert_eq!(due, LogicalTime::new(100 * k, 0));
        assert!(sched.push_event(w.enqueue_later(&d, due)));
        match sched.step(100 * k) {
            Step::Run(next) => {
                w = next;
                assert_eq!(w.logical_time(), due);
            }
            _ => panic!("expected a wave"),
        }
        assert_eq!(run_all(&mut w, sched.schedule()), expected);
    }
}

#[test]
fn timer_with_offset_starts_later() {
    let t = Timer::new(TriggerId(3), 250, 0);
    assert!(!t.is_periodic());
    assert!(!t.fires_at_startup());
    assert_eq!(t.first_event(LogicalTime::new(1_000, 0)), Some(LogicalTime::new(1_250, 0)));
    assert_eq!(t.next_event(LogicalTime::new(1_250, 0)), None);
    let mut sched = SyncScheduler::new(program().world.schedule);
    let w = sched.start(1_000, &vec![t]);
    assert_eq!(w.logical_time(), LogicalTime::new(1_000, 0));
    assert!(matches!(sched.step(1_000), Step::Sleep(250)));
}

#[test]
fn startup_reactions_run_first() {
    let mut g = GlobalAssembler::new();
    let mut a = Assembler::root(&mut g, "main").unwrap();
    let rs = a.new_reactions(&mut g, 2, 2).unwrap();
    a.declare_triggers(&mut g, TriggerId::startup(), rs[1]).unwrap();
    g.register_reactor(a.finish()).unwrap();
    let world = make_world(g).ok().unwrap();
    let mut sched = SyncScheduler::new(world.schedule);
    let mut w = sched.start(0, &vec![]);
    assert_eq!(run_all(&mut w, sched.schedule()), vec![rs[1]]);
    assert!(matches!(sched.step(0), Step::Idle));
}

#[test]
fn stopped_scheduler_runs_nothing() {
    let p = program();
    let e = event(&p.world.schedule, &p.actions[0], LogicalTime::new(5, 0));
    let mut sched = SyncScheduler::new(p.world.schedule);
    let mut w = sched.start(0, &vec![]);
    w.request_shutdown();
    sched.finish_wave(&w);
    assert!(sched.push_event(e));
    assert!(matches!(sched.step(10), Step::Idle));
}

#[test]
fn timer_reschedules_from_due_tag() {
    let mut g = GlobalAssembler::new();
    let mut a = Assembler::root(&mut g, "main").unwrap();
    let t = a.new_timer(&mut g, "t", 100, 100).unwrap();
    let rs = a.new_reactions(&mut g, 1, 1).unwrap();
    a.declare_triggers(&mut g, t.id, rs[0]).unwrap();
    g.register_reactor(a.finish()).unwrap();
    let world = make_world(g).ok().unwrap();
    let mut sched = SyncScheduler::new(world.schedule);
    let w0 = sched.start(0, &vec![t]);
    assert_eq!(w0.due_tag(), LogicalTime::new(0, 0));
    // the first event is due at 100, but the loop only gets to it at 130
    match sched.step(130) {
        Step::Run(w) => {
            assert_eq!(w.logical_time(), LogicalTime::new(130, 0));
            assert_eq!(w.due_tag(), LogicalTime::new(100, 0));
            let e = w.reschedule_timer(sched.schedule(), &t).unwrap();
            assert_eq!(e.process_at, LogicalTime::new(200, 0));
            assert_eq!(e.todo, sched.schedule().downstream(t.id));
        }
        _ => panic!("expected a wave"),
    }
    let once = Timer::new(t.id, 100, 0);
    assert!(w0.reschedule_timer(sched.schedule(), &once).is_none());
}

#[test]
fn step_sleeps_until_due() {
    let p = program();
    let e = event(&p.world.schedule, &p.actions[0], LogicalTime::new(1_000, 0));
    let mut sched = SyncScheduler::new(p.world.schedule);
    assert!(matches!(sched.step(0), Step::Idle));
    assert!(sched.push_event(e));
    assert!(matches!(sched.step(400), Step::Sleep(600)));
    assert!(matches!(sched.step(1_000), Step::Run(_)));
    assert!(matches!(sched.step(1_000), Step::Idle));
}
