use wedr_waza_core::ast::{Condition, FieldPath};
use wedr_waza_core::event::{CmpOp, RuleValue};

#[test]
fn field_path_parses_three_segments() {
    let fp = FieldPath::parse("kernel_callback.process_create.pid").unwrap();
    assert_eq!(fp.module, "kernel_callback");
    assert_eq!(fp.event_type, "process_create");
    assert_eq!(fp.field, "pid");
}

#[test]
fn field_path_rejects_malformed() {
    assert!(FieldPath::parse("a.b").is_none());
    assert!(FieldPath::parse("a..c").is_none());
    assert!(FieldPath::parse("").is_none());
}

#[test]
fn field_path_supports_dotted_event_type() {
    let fp = FieldPath::parse("plugin.hook.api_call.api").unwrap();
    assert_eq!(fp.module, "plugin");
    assert_eq!(fp.event_type, "hook.api_call");
    assert_eq!(fp.field, "api");
}

#[test]
fn field_path_field_is_always_last_segment() {
    let fp = FieldPath::parse("plugin.a.b.c.d.field").unwrap();
    assert_eq!(fp.module, "plugin");
    assert_eq!(fp.event_type, "a.b.c.d");
    assert_eq!(fp.field, "field");
}

#[test]
fn collect_event_refs_dedup() {
    let p = FieldPath::parse("m.e.f").unwrap();
    let p2 = FieldPath::parse("m.e.g").unwrap();
    let cond = Condition::And(
        Box::new(Condition::Compare {
            path: p,
            op: CmpOp::Eq,
            value: RuleValue::Int(1),
        }),
        Box::new(Condition::Compare {
            path: p2,
            op: CmpOp::Eq,
            value: RuleValue::Int(2),
        }),
    );
    let mut refs = Vec::new();
    cond.collect_event_refs(&mut refs);
    assert_eq!(refs, vec![("m".to_string(), "e".to_string())]);
}

fn is(path: &str) -> Condition {
    Condition::Compare {
        path: FieldPath::parse(path).unwrap(),
        op: CmpOp::Eq,
        value: RuleValue::Int(1),
    }
}

#[test]
fn a_path_is_read_as_it_is_written() {
    for text in ["a.b.c", "a.b.c.d", "a...b", "é.ü.ñ"] {
        let p = FieldPath::parse(text).unwrap();
        assert_eq!(format!("{}.{}.{}", p.module, p.event_type, p.field), text);
    }
    for text in [".b.c", "a.b.", "...", "abc", ".", "a."] {
        assert_eq!(FieldPath::parse(text), None);
    }
}

#[test]
fn references_come_in_order_after_those_that_were_there() {
    let cond = Condition::Or(
        Box::new(Condition::Not(Box::new(is("m.b.f")))),
        Box::new(Condition::And(Box::new(is("m.a.f")), Box::new(is("m.b.g")))),
    );
    let mut refs = vec![("m".to_string(), "a".to_string())];
    cond.collect_event_refs(&mut refs);
    assert_eq!(
        refs,
        vec![
            ("m".to_string(), "a".to_string()),
            ("m".to_string(), "b".to_string()),
        ]
    );
}

#[test]
fn field_paths_are_collected_with_repetition() {
    let cond = Condition::Or(
        Box::new(Condition::Not(Box::new(is("m.b.f")))),
        Box::new(Condition::And(Box::new(is("m.a.f")), Box::new(is("m.b.f")))),
    );
    let mut paths = Vec::new();
    cond.collect_field_paths(&mut paths);
    let events: Vec<&str> = paths.iter().map(|p| p.event_type.as_str()).collect();
    assert_eq!(events, ["b", "a", "b"]);
}
