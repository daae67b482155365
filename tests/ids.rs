use reactor_rt::ids::{GlobalId, GlobalReactionId, IdParseError, LocalReactionId, ReactorId, TriggerId};
use reactor_rt::time::{catch_up, CatchUp, LogicalTime};

#[test]
fn packing_round_trip() {
    for (c, l) in [(0u16, 0u16), (3, 7), (65535, 0), (0, 65535), (65535, 65535), (1234, 4321)] {
        let id = GlobalId::new(ReactorId::new(c), LocalReactionId::new(l));
        assert_eq!(id.container(), ReactorId::new(c));
        assert_eq!(id.local(), LocalReactionId::new(l));
    }
}

#[test]
fn packing_preserves_order() {
    let a = GlobalId::new(ReactorId::new(1), LocalReactionId::new(65535));
    let b = GlobalId::new(ReactorId::new(2), LocalReactionId::new(0));
    let c = GlobalId::new(ReactorId::new(2), LocalReactionId::new(1));
    assert!(a < b);
    assert!(b < c);
    assert_eq!(b, GlobalId::new(ReactorId::new(2), LocalReactionId::new(0)));
}

#[test]
fn text_form() {
    let id = GlobalId::new(ReactorId::new(12), LocalReactionId::new(34));
    assert_eq!(id.to_string(), "12/34");
    assert_eq!(GlobalId::parse("12/34"), Ok(id));
    assert_eq!(GlobalId::parse(&id.to_string()), Ok(id));
    let max = GlobalId::new(ReactorId::new(65535), LocalReactionId::new(0));
    assert_eq!(max.to_string(), "65535/0");
}

#[test]
fn parse_accepts_plus_sign() {
    let id = GlobalId::new(ReactorId::new(5), LocalReactionId::new(6));
    assert_eq!(GlobalId::parse("+5/+6"), Ok(id));
}

#[test]
fn parse_errors() {
    assert_eq!(GlobalId::parse("5"), Err(IdParseError::MissingSlash));
    assert_eq!(GlobalId::parse(""), Err(IdParseError::MissingSlash));
    assert_eq!(GlobalId::parse("x/1"), Err(IdParseError::InvalidReactorId));
    assert_eq!(GlobalId::parse("/1"), Err(IdParseError::InvalidReactorId));
    assert_eq!(GlobalId::parse("65536/1"), Err(IdParseError::InvalidReactorId));
    assert_eq!(GlobalId::parse("1/70000"), Err(IdParseError::InvalidLocalId));
    assert_eq!(GlobalId::parse("1/2/3"), Err(IdParseError::InvalidLocalId));
    assert_eq!(GlobalId::parse("1/"), Err(IdParseError::InvalidLocalId));
    assert_eq!(GlobalId::parse("1/+"), Err(IdParseError::InvalidLocalId));
}

#[test]
fn local_id_plus_checks_range() {
    assert_eq!(LocalReactionId::new(10).plus(5), Some(LocalReactionId::new(15)));
    assert_eq!(LocalReactionId::new(65530).plus(5), Some(LocalReactionId::new(65535)));
    assert_eq!(LocalReactionId::new(65530).plus(6), None);
}

#[test]
fn trigger_id_next() {
    assert_eq!(TriggerId::startup(), TriggerId(0));
    assert_eq!(TriggerId(4).next(), Some(TriggerId(5)));
    assert_eq!(TriggerId(u32::MAX).next(), None);
}

#[test]
fn reaction_id_new() {
    let r = GlobalReactionId::new(ReactorId::new(2), LocalReactionId::new(1));
    assert_eq!(r.0.container(), ReactorId::new(2));
    assert_eq!(r.0.local(), LocalReactionId::new(1));
}

#[test]
fn eta_of_zero_delay_is_next_microstep() {
    let t = LogicalTime::new(100, 3);
    assert_eq!(t.make_eta(0, 0), Some(LogicalTime::new(100, 4)));
    assert_eq!(t.make_eta(10, 5), Some(LogicalTime::new(115, 0)));
    assert_eq!(LogicalTime::new(100, u64::MAX).make_eta(0, 0), None);
    assert_eq!(LogicalTime::new(u64::MAX - 1, 0).make_eta(1, 1), None);
    assert_eq!(t.make_eta(u64::MAX, 1), None);
}

#[test]
fn tag_order_is_lexicographic() {
    assert!(LogicalTime::new(1, 5).lt(&LogicalTime::new(2, 0)));
    assert!(LogicalTime::new(2, 0).lt(&LogicalTime::new(2, 1)));
    assert!(!LogicalTime::new(2, 1).lt(&LogicalTime::new(2, 1)));
}

#[test]
fn catch_up_sleeps_until_target() {
    let target = LogicalTime::new(1_000, 2);
    assert_eq!(catch_up(target, 400), CatchUp::Sleep(600));
    assert_eq!(catch_up(target, 1_000), CatchUp::Process(LogicalTime::new(1_000, 0)));
    assert_eq!(catch_up(target, 1_500), CatchUp::Process(LogicalTime::new(1_500, 0)));
}

#[test]
fn from_str_parses() {
    let id: GlobalId = "3/4".parse().unwrap();
    assert_eq!(id, GlobalId::new(ReactorId::new(3), LocalReactionId::new(4)));
    assert_eq!("3-4".parse::<GlobalId>(), Err(IdParseError::MissingSlash));
}
