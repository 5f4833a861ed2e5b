use wedr_waza_core::event::{CmpOp, FieldMap, FieldValue, Float, LogEvent, RuleValue};
use wedr_waza_core::time::Timestamp;

#[test]
fn compare_int_ordering() {
    let v = FieldValue::Int(4688);
    assert!(v.compare(&CmpOp::Eq, &RuleValue::Int(4688)));
    assert!(v.compare(&CmpOp::Ge, &RuleValue::Int(4688)));
    assert!(v.compare(&CmpOp::Gt, &RuleValue::Int(4000)));
    assert!(!v.compare(&CmpOp::Lt, &RuleValue::Int(4000)));
}

#[test]
fn compare_str_ops() {
    let v = FieldValue::Str("C:\\malware.exe".to_string());
    assert!(v.compare(&CmpOp::Contains, &RuleValue::Str("malware".to_string())));
    assert!(v.compare(&CmpOp::StartsWith, &RuleValue::Str("C:\\".to_string())));
    assert!(!v.compare(&CmpOp::Eq, &RuleValue::Str("other".to_string())));
}

#[test]
fn compare_bool() {
    let v = FieldValue::Bool(true);
    assert!(v.compare(&CmpOp::Eq, &RuleValue::Bool(true)));
    assert!(v.compare(&CmpOp::Ne, &RuleValue::Bool(false)));
}

#[test]
fn compare_incompatible_types_is_false() {
    let v = FieldValue::Int(4688);
    assert!(!v.compare(&CmpOp::Eq, &RuleValue::Str("4688".to_string())));
    let v = FieldValue::Str("4688".to_string());
    assert!(!v.compare(&CmpOp::Eq, &RuleValue::Int(4688)));
    assert!(!v.compare(&CmpOp::Lt, &RuleValue::Int(9999)));
}

fn float(x: f64) -> Float {
    Float { bits: x.to_bits() }
}

const OPS: [CmpOp; 8] = [
    CmpOp::Eq,
    CmpOp::Ne,
    CmpOp::Lt,
    CmpOp::Gt,
    CmpOp::Le,
    CmpOp::Ge,
    CmpOp::Contains,
    CmpOp::StartsWith,
];

#[test]
fn floats_compare_as_the_numbers_do() {
    let values = [
        0.0,
        -0.0,
        1.0,
        -1.0,
        0.5,
        -0.5,
        1.5e300,
        -1.5e300,
        5e-324,
        -5e-324,
        f64::MIN_POSITIVE,
        f64::MAX,
        f64::MIN,
        f64::INFINITY,
        f64::NEG_INFINITY,
        f64::NAN,
        -f64::NAN,
    ];
    for a in values {
        for b in values {
            let l = FieldValue::Float(float(a));
            let r = RuleValue::Float(float(b));
            assert_eq!(l.compare(&CmpOp::Eq, &r), a == b, "{a} == {b}");
            assert_eq!(l.compare(&CmpOp::Ne, &r), a != b, "{a} != {b}");
            assert_eq!(l.compare(&CmpOp::Lt, &r), a < b, "{a} < {b}");
            assert_eq!(l.compare(&CmpOp::Gt, &r), a > b, "{a} > {b}");
            assert_eq!(l.compare(&CmpOp::Le, &r), a <= b, "{a} <= {b}");
            assert_eq!(l.compare(&CmpOp::Ge, &r), a >= b, "{a} >= {b}");
            assert!(!l.compare(&CmpOp::Contains, &r));
            assert!(!l.compare(&CmpOp::StartsWith, &r));
        }
    }
}

#[test]
fn values_of_two_types_never_compare() {
    let fields = [
        FieldValue::Int(1),
        FieldValue::Float(float(1.0)),
        FieldValue::Str("1".to_string()),
        FieldValue::Bool(true),
    ];
    let rules = [
        RuleValue::Int(1),
        RuleValue::Float(float(1.0)),
        RuleValue::Str("1".to_string()),
        RuleValue::Bool(true),
    ];
    for (i, l) in fields.iter().enumerate() {
        for (j, r) in rules.iter().enumerate() {
            if i != j {
                for op in OPS {
                    assert!(!l.compare(&op, r));
                }
            }
        }
    }
}

#[test]
fn text_operators() {
    let has = |text: &str, op: CmpOp, rule: &str| {
        FieldValue::Str(text.to_string()).compare(&op, &RuleValue::Str(rule.to_string()))
    };
    assert!(has("abcabd", CmpOp::Contains, "abd"));
    assert!(has("abc", CmpOp::Contains, ""));
    assert!(!has("abc", CmpOp::Contains, "abcd"));
    assert!(!has("abc", CmpOp::Contains, "B"));
    assert!(has("été", CmpOp::Contains, "té"));
    assert!(has("aaab", CmpOp::Contains, "aab"));
    assert!(has("abc", CmpOp::Contains, "c"));
    assert!(has("abc", CmpOp::Contains, "abc"));
    assert!(!has("abab", CmpOp::Contains, "abc"));
    assert!(!has("", CmpOp::Contains, "a"));
    assert!(has("", CmpOp::Contains, ""));
    assert!(!has("ab", CmpOp::Contains, "ba"));
    assert!(has("abc", CmpOp::StartsWith, "ab"));
    assert!(!has("abc", CmpOp::StartsWith, "bc"));
    assert!(has("abc", CmpOp::StartsWith, ""));
    assert!(has("abc", CmpOp::Eq, "abc"));
    assert!(has("abc", CmpOp::Ne, "abd"));
    assert!(!has("abc", CmpOp::Lt, "abd"));
    assert!(!has("abc", CmpOp::Ge, "abc"));
}

#[test]
fn truth_values_have_no_order() {
    for op in [CmpOp::Lt, CmpOp::Gt, CmpOp::Le, CmpOp::Ge, CmpOp::Contains, CmpOp::StartsWith] {
        assert!(!FieldValue::Bool(true).compare(&op, &RuleValue::Bool(true)));
    }
}

#[test]
fn operators_on_plain_values() {
    assert!(CmpOp::Le.apply_ord(&3, &3));
    assert!(!CmpOp::Contains.apply_ord(&3, &3));
    assert!(CmpOp::Ne.apply_eq(&1u8, &2u8));
    assert!(!CmpOp::Lt.apply_eq(&1u8, &2u8));
    assert!(CmpOp::StartsWith.apply_str("abc", "a"));
}

#[test]
fn a_field_is_the_last_value_given_for_it() {
    let mut fields = FieldMap::new();
    fields.insert("pid".to_string(), FieldValue::Int(1));
    fields.insert("name".to_string(), FieldValue::Str("a".to_string()));
    fields.insert("pid".to_string(), FieldValue::Int(2));
    assert_eq!(fields.len(), 2);
    let mut names: Vec<&str> = fields.entries().iter().map(|(k, _)| k.as_str()).collect();
    names.sort();
    assert_eq!(names, ["name", "pid"]);
    assert!(fields
        .entries()
        .contains(&("pid".to_string(), FieldValue::Int(2))));
    assert_eq!(FieldMap::new().len(), 0);
    let event = LogEvent {
        module: "m".to_string(),
        event_type: "e".to_string(),
        fields,
        timestamp: Timestamp { nanos: 0 },
    };
    assert_eq!(event.get_field("pid"), Some(&FieldValue::Int(2)));
    assert_eq!(event.get_field("name"), Some(&FieldValue::Str("a".to_string())));
    assert_eq!(event.get_field("Pid"), None);
    let copy = event.clone();
    assert_eq!(copy.get_field("pid"), Some(&FieldValue::Int(2)));
    assert_eq!(copy.module, "m");
}
