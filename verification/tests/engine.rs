use wedr_waza_core::ast::{Action, Condition, FieldPath, Rule, Throttle};
use wedr_waza_core::engine::{eval, RuleEngine};
use wedr_waza_core::event::{CmpOp, FieldMap, FieldValue, LogEvent, RuleValue};
use wedr_waza_core::throttle::ThrottleState;
use wedr_waza_core::time::{Clock, Duration, Timestamp, FIRST_READING};

fn ev(clock: &Clock, module: &str, et: &str, fields: &[(&str, FieldValue)]) -> LogEvent {
    let mut map = FieldMap::new();
    for (k, v) in fields {
        map.insert((*k).to_string(), v.clone());
    }
    LogEvent {
        module: module.into(),
        event_type: et.into(),
        fields: map,
        timestamp: clock.now(),
    }
}

fn cmp(path: &str, op: CmpOp, v: RuleValue) -> Condition {
    Condition::Compare {
        path: FieldPath::parse(path).unwrap(),
        op,
        value: v,
    }
}

#[test]
fn single_event_matches_compare() {
    let clock = Clock::start();
    let rule = Rule {
        name: "r1".into(),
        conditions: vec![cmp(
            "kernel_callback.process_create.pid",
            CmpOp::Eq,
            RuleValue::Int(4688),
        )],
        window: Duration::from_secs(5),
        throttle: None,
        actions: vec![Action::Log],
    };
    let mut engine = RuleEngine::new(vec![rule]);
    let fired = engine.process_event(
        &ev(
            &clock,
            "kernel_callback",
            "process_create",
            &[("pid", FieldValue::Int(4688))],
        ),
        &clock,
    );
    assert_eq!(fired.len(), 1);
    assert_eq!(fired[0].rule_name, "r1");
}

#[test]
fn unindexed_event_evaluates_no_rule() {
    let clock = Clock::start();
    let rule = Rule {
        name: "r1".into(),
        conditions: vec![cmp(
            "kernel_callback.process_create.pid",
            CmpOp::Eq,
            RuleValue::Int(4688),
        )],
        window: Duration::from_secs(5),
        throttle: None,
        actions: vec![Action::Log],
    };
    let mut engine = RuleEngine::new(vec![rule]);
    let fired = engine.process_event(
        &ev(
            &clock,
            "kernel_callback",
            "thread_exit",
            &[("tid", FieldValue::Int(1))],
        ),
        &clock,
    );
    assert!(fired.is_empty());
}

fn malware() -> Condition {
    Condition::And(
        Box::new(cmp(
            "kernel_callback.process_create.pid",
            CmpOp::Eq,
            RuleValue::Int(4688),
        )),
        Box::new(cmp(
            "minifilter.file_create.name",
            CmpOp::Eq,
            RuleValue::Str("malware.exe".into()),
        )),
    )
}

#[test]
fn correlation_and_across_modules_in_window() {
    let clock = Clock::start();
    let rule = Rule {
        name: "corr".into(),
        conditions: vec![malware()],
        window: Duration::from_secs(5),
        throttle: None,
        actions: vec![Action::Alert("suspicious".into())],
    };
    let mut engine = RuleEngine::new(vec![rule]);

    let fired = engine.process_event(
        &ev(
            &clock,
            "kernel_callback",
            "process_create",
            &[("pid", FieldValue::Int(4688))],
        ),
        &clock,
    );
    assert!(fired.is_empty());

    let fired = engine.process_event(
        &ev(
            &clock,
            "minifilter",
            "file_create",
            &[("name", FieldValue::Str("malware.exe".into()))],
        ),
        &clock,
    );
    assert_eq!(fired.len(), 1);
    assert_eq!(fired[0].rule_name, "corr");
    // The window holds both correlated events, the triggering one last.
    assert_eq!(fired[0].window.len(), 2);
    assert!(fired[0]
        .window
        .iter()
        .any(|e| e.module == "kernel_callback" && e.event_type == "process_create"));
}

#[test]
fn correlation_misses_when_event_aged_out() {
    let clock = Clock::start();
    let rule = Rule {
        name: "corr".into(),
        conditions: vec![malware()],
        window: Duration::from_millis(50),
        throttle: None,
        actions: vec![Action::Log],
    };
    let mut engine = RuleEngine::new(vec![rule]);

    let mut stale = ev(
        &clock,
        "kernel_callback",
        "process_create",
        &[("pid", FieldValue::Int(4688))],
    );
    stale.timestamp = Timestamp {
        nanos: clock.now().nanos - Duration::from_millis(200).nanos,
    };
    let _ = engine.process_event(&stale, &clock);

    let fired = engine.process_event(
        &ev(
            &clock,
            "minifilter",
            "file_create",
            &[("name", FieldValue::Str("malware.exe".into()))],
        ),
        &clock,
    );
    assert!(fired.is_empty());
}

#[test]
fn duplicate_event_refs_dont_double_fire() {
    let clock = Clock::start();
    // Three alternative lines about one kind of event fire once per event.
    let rule = Rule {
        name: "or3".into(),
        conditions: vec![
            cmp(
                "kernel_callback.process_create.image_path",
                CmpOp::Contains,
                RuleValue::Str("a.exe".into()),
            ),
            cmp(
                "kernel_callback.process_create.image_path",
                CmpOp::Contains,
                RuleValue::Str("b.exe".into()),
            ),
            cmp(
                "kernel_callback.process_create.image_path",
                CmpOp::Contains,
                RuleValue::Str("c.exe".into()),
            ),
        ],
        window: Duration::from_secs(5),
        throttle: None,
        actions: vec![Action::Log],
    };
    let mut engine = RuleEngine::new(vec![rule]);
    let e = ev(
        &clock,
        "kernel_callback",
        "process_create",
        &[("image_path", FieldValue::Str("a.exe".into()))],
    );
    let fired = engine.process_event(&e, &clock);
    assert_eq!(fired.len(), 1, "1 event = 1 fire, pas N");
}

#[test]
fn throttle_caps_firings_in_window() {
    let clock = Clock::start();
    // Two firings a second; the third within the second is dropped.
    let rule = Rule {
        name: "noisy".into(),
        conditions: vec![cmp(
            "kernel_callback.process_create.pid",
            CmpOp::Gt,
            RuleValue::Int(0),
        )],
        window: Duration::from_secs(5),
        throttle: Some(Throttle {
            max: 2,
            per: Duration::from_secs(1),
        }),
        actions: vec![Action::Log],
    };
    let mut engine = RuleEngine::new(vec![rule]);
    let one = ev(
        &clock,
        "kernel_callback",
        "process_create",
        &[("pid", FieldValue::Int(1))],
    );
    assert_eq!(engine.process_event(&one, &clock).len(), 1);
    assert_eq!(engine.process_event(&one, &clock).len(), 1);
    assert_eq!(
        engine.process_event(&one, &clock).len(),
        0,
        "3e match dans la fenêtre throttle doit être étouffé"
    );
}

// ---------------------------------------------------------------------
// At given times
// ---------------------------------------------------------------------

const MS: u128 = 1_000_000;

fn at(module: &str, et: &str, n: i64, ms: u128) -> LogEvent {
    let mut fields = FieldMap::new();
    fields.insert("n".to_string(), FieldValue::Int(n));
    LogEvent {
        module: module.to_string(),
        event_type: et.to_string(),
        fields,
        timestamp: Timestamp { nanos: ms * MS },
    }
}

fn now(ms: u128) -> Timestamp {
    Timestamp { nanos: ms * MS }
}

fn rule(name: &str, conditions: Vec<Condition>, window_ms: u64, throttle: Option<Throttle>) -> Rule {
    Rule {
        name: name.to_string(),
        conditions,
        window: Duration::from_millis(window_ms),
        throttle,
        actions: vec![Action::Log],
    }
}

fn is(path: &str, n: i64) -> Condition {
    cmp(path, CmpOp::Eq, RuleValue::Int(n))
}

fn names(fired: &[wedr_waza_core::engine::Firing]) -> Vec<String> {
    fired.iter().map(|f| f.rule_name.clone()).collect()
}

#[test]
fn an_event_of_the_age_of_the_window_still_counts() {
    let both = Condition::And(Box::new(is("a.x.n", 1)), Box::new(is("b.x.n", 2)));
    for (ms, fires) in [(149, 1), (150, 1), (151, 0)] {
        let mut engine = RuleEngine::new(vec![rule("r", vec![is("c.x.n", 0), both.clone()], 50, None)]);
        assert!(engine.process_event_at(&at("a", "x", 1, 100), now(100)).is_empty());
        let fired = engine.process_event_at(&at("b", "x", 2, ms), now(ms));
        assert_eq!(fired.len(), fires, "{ms}");
    }
}

#[test]
fn an_event_of_the_future_is_not_old() {
    let mut engine = RuleEngine::new(vec![rule("r", vec![is("a.x.n", 1)], 50, None)]);
    assert_eq!(engine.process_event_at(&at("a", "x", 1, 900), now(100)).len(), 1);
}

#[test]
fn a_stale_event_is_dropped_at_once() {
    let mut engine = RuleEngine::new(vec![rule("r", vec![is("a.x.n", 1)], 50, None)]);
    assert!(engine.process_event_at(&at("a", "x", 1, 0), now(100)).is_empty());
}

#[test]
fn only_leading_events_are_dropped() {
    // A fresh event that came first shields a stale one behind it.
    let both = Condition::And(Box::new(is("a.x.n", 1)), Box::new(is("a.x.n", 2)));
    let mut engine = RuleEngine::new(vec![rule("r", vec![both], 50, None)]);
    assert!(engine.process_event_at(&at("a", "x", 1, 100), now(100)).is_empty());
    let fired = engine.process_event_at(&at("a", "x", 2, 0), now(100));
    assert_eq!(fired.len(), 1);
    assert_eq!(fired[0].window.len(), 2);
}

#[test]
fn rules_fire_in_their_order_and_once_each() {
    let mut engine = RuleEngine::new(vec![
        rule("z", vec![is("a.x.n", 1), is("a.x.n", 1)], 50, None),
        rule("other", vec![is("b.x.n", 1)], 50, None),
        rule("not", vec![Condition::Not(Box::new(is("a.x.n", 2)))], 50, None),
        rule("b", vec![is("a.y.n", 1), is("a.x.n", 1)], 50, None),
    ]);
    assert_eq!(engine.rule_count(), 4);
    let fired = engine.process_event_at(&at("a", "x", 1, 10), now(10));
    assert_eq!(names(&fired), ["z", "not", "b"]);
    assert_eq!(fired[0].actions, vec![Action::Log]);
    assert_eq!(fired[0].window.len(), 1);
    assert!(engine.process_event_at(&at("a", "q", 1, 10), now(10)).is_empty());
}

#[test]
fn a_negation_is_of_the_whole_window() {
    let mut engine = RuleEngine::new(vec![rule(
        "not",
        vec![Condition::Not(Box::new(is("a.x.n", 2)))],
        50,
        None,
    )]);
    assert_eq!(engine.process_event_at(&at("a", "x", 1, 10), now(10)).len(), 1);
    assert_eq!(engine.process_event_at(&at("a", "x", 2, 20), now(20)).len(), 0);
    assert_eq!(engine.process_event_at(&at("a", "x", 1, 30), now(30)).len(), 0);
    assert_eq!(engine.process_event_at(&at("a", "x", 1, 90), now(90)).len(), 1);
}

#[test]
fn an_event_without_the_field_does_not_match() {
    let mut engine = RuleEngine::new(vec![rule("r", vec![is("a.x.m", 1)], 50, None)]);
    assert!(engine.process_event_at(&at("a", "x", 1, 10), now(10)).is_empty());
}

#[test]
fn windows_are_kept_apart() {
    let both = Condition::And(Box::new(is("a.x.n", 1)), Box::new(is("b.x.n", 1)));
    let mut engine = RuleEngine::new(vec![
        rule("short", vec![both.clone()], 50, None),
        rule("long", vec![both], 500, None),
    ]);
    assert!(engine.process_event_at(&at("a", "x", 1, 0), now(0)).is_empty());
    let fired = engine.process_event_at(&at("b", "x", 1, 100), now(100));
    assert_eq!(names(&fired), ["long"]);
    assert_eq!(fired[0].window.len(), 2);
    assert_eq!(fired[0].window[1].module, "b");
}

#[test]
fn a_throttle_rolls() {
    let throttle = Throttle {
        max: 2,
        per: Duration::from_millis(100),
    };
    let mut engine = RuleEngine::new(vec![rule("r", vec![is("a.x.n", 1)], 50, Some(throttle))]);
    let mut fires = Vec::new();
    for ms in [0, 10, 20, 100, 101, 105, 111, 112, 202] {
        if !engine.process_event_at(&at("a", "x", 1, ms), now(ms)).is_empty() {
            fires.push(ms);
        }
    }
    // Any three successive firings span more than 100 ms.
    assert_eq!(fires, [0, 10, 101, 111, 202]);
}

#[test]
fn a_throttle_of_nothing_never_fires() {
    let throttle = Throttle {
        max: 0,
        per: Duration::from_millis(100),
    };
    let mut engine = RuleEngine::new(vec![rule("r", vec![is("a.x.n", 1)], 50, Some(throttle))]);
    assert!(engine.process_event_at(&at("a", "x", 1, 0), now(0)).is_empty());
}

#[test]
fn a_match_that_is_missing_uses_up_no_throttle() {
    let throttle = Throttle {
        max: 1,
        per: Duration::from_millis(100),
    };
    let mut engine = RuleEngine::new(vec![rule("r", vec![is("a.x.n", 1)], 5, Some(throttle))]);
    assert!(engine.process_event_at(&at("a", "x", 2, 0), now(0)).is_empty());
    assert_eq!(engine.process_event_at(&at("a", "x", 1, 10), now(10)).len(), 1);
    assert!(engine.process_event_at(&at("a", "x", 1, 20), now(20)).is_empty());
}

#[test]
fn a_stale_event_fires_nothing_and_uses_up_no_throttle() {
    let throttle = Throttle {
        max: 1,
        per: Duration::from_millis(10_000),
    };
    let not = Condition::Not(Box::new(is("a.x.n", 1)));
    let mut engine = RuleEngine::new(vec![rule("not", vec![not], 5000, Some(throttle))]);
    assert!(engine.process_event_at(&at("a", "x", 2, 0), now(6000)).is_empty());
    let fired = engine.process_event_at(&at("a", "x", 3, 6000), now(6000));
    assert_eq!(fired.len(), 1);
    assert_eq!(fired[0].window.len(), 1);
    let trigger = fired[0].window.last().unwrap();
    assert_eq!(trigger.get_field("n"), Some(&FieldValue::Int(3)));
}

#[test]
fn a_throttle_grants_and_refuses() {
    let mut state = ThrottleState::from(&Throttle {
        max: 2,
        per: Duration::from_millis(100),
    });
    let answers: Vec<bool> = [0, 10, 100, 101, 110, 111]
        .iter()
        .map(|ms| state.allow_and_record(now(*ms)))
        .collect();
    assert_eq!(answers, [true, true, false, true, false, true]);
}

#[test]
fn more_events_keep_a_match_and_order_does_not_matter() {
    let both = Condition::And(Box::new(is("a.x.n", 1)), Box::new(is("b.x.n", 2)));
    let (a, b, c) = (at("a", "x", 1, 0), at("b", "x", 2, 0), at("c", "x", 3, 0));
    let window = |events: &[&LogEvent]| events.iter().map(|e| (*e).clone()).collect();
    assert!(eval(&both, &window(&[&a, &b])));
    assert!(eval(&both, &window(&[&b, &a])));
    assert!(eval(&both, &window(&[&a, &b, &a, &c])));
    assert!(!eval(&both, &window(&[&a, &c])));
    let not = Condition::Not(Box::new(both));
    assert!(!eval(&not, &window(&[&b, &a, &b])));
}

#[test]
fn an_engine_without_rules_is_silent() {
    let mut engine = RuleEngine::new(Vec::new());
    assert_eq!(engine.rule_count(), 0);
    assert!(engine.process_event_at(&at("a", "x", 1, 0), now(0)).is_empty());
}

#[test]
fn dotted_event_types_are_indexed_whole() {
    let mut engine = RuleEngine::new(vec![rule("r", vec![is("plugin.hook.api.n", 1)], 50, None)]);
    assert!(engine.process_event_at(&at("plugin", "hook", 1, 0), now(0)).is_empty());
    assert_eq!(engine.process_event_at(&at("plugin", "hook.api", 1, 0), now(0)).len(), 1);
}

#[test]
fn a_clock_runs_forward() {
    let clock = Clock::start();
    let first = clock.now();
    let second = clock.now();
    assert!(first.nanos <= second.nanos);
    assert_eq!(first.duration_since(second), Duration { nanos: 0 });
    assert!(first.nanos >= FIRST_READING);
    assert!(first.nanos < FIRST_READING + Duration::from_secs(3600).nanos);
}
