use wedr_waza_core::ast::{Action, Condition, Rule, Throttle};
use wedr_waza_core::directive::{parse_action, parse_duration, parse_throttle};
use wedr_waza_core::event::{CmpOp, Float, RuleValue};
use wedr_waza_core::expr::parse_expression;
use wedr_waza_core::floats::{FloatReading, FloatTable};
use wedr_waza_core::parser::{
    default_window, float_literals, parse_file, parse_file_with_window, parse_source, Loader, ParseError,
    Request, SourceFile, Stop,
};
use wedr_waza_core::time::Duration;

fn floats(texts: &[&str]) -> FloatTable {
    let mut table = FloatTable::new();
    for text in texts {
        if let Ok(x) = text.parse::<f64>() {
            table.add(
                text.to_string(),
                FloatReading {
                    value: Float { bits: x.to_bits() },
                    shown: format!("{x:?}"),
                },
            );
        }
    }
    table
}

#[test]
fn parse_and_of_two_compares() {
    let c = parse_expression(
        r#"kernel_callback.process_create.pid == 4688 && minifilter.file_create.name == "malware.exe""#,
        &floats(&[]),
    )
    .unwrap();
    match c {
        Condition::And(a, b) => {
            assert!(matches!(*a, Condition::Compare { .. }));
            assert!(matches!(*b, Condition::Compare { .. }));
        }
        _ => panic!("expected And(Compare, Compare), got {:?}", c),
    }
}

#[test]
fn precedence_or_over_and() {
    let c = parse_expression("m.e.a == 1 || m.e.b == 2 && m.e.c == 3", &floats(&[])).unwrap();
    match c {
        Condition::Or(a, rest) => {
            assert!(matches!(*a, Condition::Compare { .. }));
            assert!(matches!(*rest, Condition::And(_, _)));
        }
        _ => panic!("expected Or(_, And(_,_)), got {:?}", c),
    }
}

#[test]
fn parens_override_precedence() {
    let c = parse_expression("(m.e.a == 1 || m.e.b == 2) && m.e.c == 3", &floats(&[])).unwrap();
    assert!(matches!(c, Condition::And(_, _)));
    if let Condition::And(left, _) = c {
        assert!(matches!(*left, Condition::Or(_, _)));
    }
}

#[test]
fn not_and_string_ops() {
    let c = parse_expression(r#"!m.e.path startsWith "C:\\Windows""#, &floats(&[]));
    assert!(c.is_ok(), "got {:?}", c);
    let c = parse_expression(r#"m.e.path contains "evil""#, &floats(&[])).unwrap();
    assert!(matches!(
        c,
        Condition::Compare {
            op: CmpOp::Contains,
            ..
        }
    ));
}

#[test]
fn bool_and_float_and_neg_int() {
    assert!(parse_expression("m.e.flag == true", &floats(&[])).is_ok());
    assert!(parse_expression("m.e.ratio >= 0.5", &floats(&["0.5"])).is_ok());
    assert!(parse_expression("m.e.delta < -3", &floats(&[])).is_ok());
}

#[test]
fn inline_comment_is_stripped() {
    let doc = r#"
- Detection:
  - R:
      - kernel_callback.process_create.pid == 4688  # commentaire fin de ligne
- Action:
  - R:
    - log
"#;
    let rules = parse_source(doc, default_window(), &floats(&[])).unwrap();
    assert_eq!(rules.len(), 1);
    assert_eq!(rules[0].conditions.len(), 1);
}

#[test]
fn hash_inside_string_is_not_a_comment() {
    let doc = r#"
- Detection:
  - R:
      - kernel_callback.process_create.image_path contains "C:\\foo#bar.exe"
- Action:
  - R:
    - log
"#;
    let rules = parse_source(doc, default_window(), &floats(&[])).unwrap();
    assert_eq!(rules.len(), 1);
    match &rules[0].conditions[0] {
        Condition::Compare {
            value: RuleValue::Str(s),
            ..
        } => {
            assert_eq!(s, "C:\\foo#bar.exe");
        }
        other => panic!("expected Str literal preserving '#', got {:?}", other),
    }
}

#[test]
fn duplicate_detection_group_is_rejected() {
    let doc = r#"
- Detection:
  - Same:
      - kernel_callback.process_create.pid == 1
  - Same:
      - kernel_callback.process_create.pid == 2
- Action:
  - Same:
    - log
"#;
    let err = parse_source(doc, default_window(), &floats(&[])).unwrap_err();
    assert!(
        err.contains("duplicate Detection group 'Same'"),
        "got: {err}"
    );
}

#[test]
fn duplicate_action_group_is_rejected() {
    let doc = r#"
- Detection:
  - R:
      - kernel_callback.process_create.pid == 1
- Action:
  - R:
    - log
  - R:
    - alert "duplicated"
"#;
    let err = parse_source(doc, default_window(), &floats(&[])).unwrap_err();
    assert!(err.contains("duplicate Action group 'R'"), "got: {err}");
}

#[test]
fn detection_without_action_is_rejected() {
    let doc = r#"
- Detection:
  - Mute:
      - kernel_callback.process_create.pid == 1
- Action:
  - SomethingElse:
    - log
"#;
    let err = parse_source(doc, default_window(), &floats(&[])).unwrap_err();
    assert!(
        err.contains("Detection group but no matching Action group"),
        "got: {err}"
    );
}

#[test]
fn parse_duration_overflow_is_rejected() {
    assert_eq!(parse_duration("9223372036854775807m"), None);
    assert_eq!(parse_duration("9223372036854775807h"), None);
}

#[test]
fn duration_parsing() {
    assert_eq!(parse_duration("10s"), Some(Duration::from_secs(10)));
    assert_eq!(parse_duration("500ms"), Some(Duration::from_millis(500)));
    assert_eq!(parse_duration("7"), Some(Duration::from_secs(7)));
    assert_eq!(parse_duration("5m"), Some(Duration::from_secs(300)));
    assert_eq!(parse_duration("1h"), Some(Duration::from_secs(3600)));
    assert_eq!(parse_duration("abc"), None);
}

#[test]
fn throttle_parsing() {
    assert_eq!(
        parse_throttle("1/min"),
        Some(Throttle {
            max: 1,
            per: Duration::from_secs(60)
        })
    );
    assert_eq!(
        parse_throttle("5/30s"),
        Some(Throttle {
            max: 5,
            per: Duration::from_secs(30)
        })
    );
    assert_eq!(
        parse_throttle("10/hour"),
        Some(Throttle {
            max: 10,
            per: Duration::from_secs(3600)
        })
    );
    assert_eq!(parse_throttle("0/min"), None);
    assert_eq!(parse_throttle("foo"), None);
}

#[test]
fn full_inline_document() {
    let doc = r#"
- Detection:
  - Group1:
      window: 10s
      throttle: 1/min
      - kernel_callback.process_create.pid == 4688
      - kernel_callback.process_create.pid == 4689
- Action:
  - Group1:
    - log
    - alert "boom"
"#;
    let rules = parse_source(doc, default_window(), &floats(&[])).unwrap();
    assert_eq!(rules.len(), 1);
    let r = &rules[0];
    assert_eq!(r.name, "Group1");
    assert_eq!(r.conditions.len(), 2);
    assert_eq!(r.window, Duration::from_secs(10));
    assert_eq!(
        r.throttle,
        Some(Throttle {
            max: 1,
            per: Duration::from_secs(60)
        })
    );
    assert_eq!(r.actions, vec![Action::Log, Action::Alert("boom".into())]);
}

fn file(from: &str, rel: &str, path: &str, canon: &str, content: &str) -> SourceFile {
    SourceFile {
        request: Request {
            from: from.to_string(),
            rel: rel.to_string(),
        },
        path: path.to_string(),
        canon: canon.to_string(),
        content: Ok(content.to_string()),
    }
}

#[test]
fn include_merges_and_detects_cycles() {
    let main = "- Detection:\n  - G1:\n      - m.e.a == 1\n      - include \"./net.waza\"\n- Action:\n  - G1:\n    - log\n";
    let net = "- Detection:\n  - NetG:\n      - net.flow.port == 4444\n- Action:\n  - NetG:\n    - alert \"net\"\n";

    // Only the main file is there: the parser asks for the other.
    let mut files = vec![file("", "t/main.waza", "t/main.waza", "/t/main.waza", main)];
    let stop = parse_file(&files, "t/main.waza", &floats(&[])).unwrap_err();
    let wanted = match stop {
        Stop::Missing(request) => request,
        other => panic!("expected a missing file, got {:?}", other),
    };
    assert_eq!(wanted.from, "t/main.waza");
    assert_eq!(wanted.rel, "./net.waza");

    files.push(file(
        "t/main.waza",
        "./net.waza",
        "t/./net.waza",
        "/t/net.waza",
        net,
    ));
    let rules = parse_file(&files, "t/main.waza", &floats(&[])).unwrap();
    let names: Vec<_> = rules.iter().map(|r| r.name.clone()).collect();
    assert!(names.contains(&"G1".to_string()));
    assert!(names.contains(&"NetG".to_string()));

    let net = "- Detection:\n  - NetG:\n      - include \"./main.waza\"\n- Action:\n  - NetG:\n    - log\n";
    let files = vec![
        file("", "t/main.waza", "t/main.waza", "/t/main.waza", main),
        file(
            "t/main.waza",
            "./net.waza",
            "t/./net.waza",
            "/t/net.waza",
            net,
        ),
        file(
            "t/./net.waza",
            "./main.waza",
            "t/././main.waza",
            "/t/main.waza",
            main,
        ),
    ];
    let err = parse_file(&files, "t/main.waza", &floats(&[]));
    assert!(
        err.is_err(),
        "expected circular include error, got {:?}",
        err
    );
    match err.unwrap_err() {
        Stop::Failed(e) => assert!(e.contains("circular")),
        other => panic!("expected a message, got {:?}", other),
    }
}

// ---------------------------------------------------------------------
// Messages
// ---------------------------------------------------------------------

fn message(line: &str) -> String {
    parse_expression(line, &floats(&["0.5", "1.50", "1e5"])).unwrap_err()
}

#[test]
fn messages_of_the_tokenizer() {
    assert_eq!(message("m.e.f & 1"), "expected '&&'");
    assert_eq!(message("m.e.f = 1"), "expected '=='");
    assert_eq!(message("m.e.f == \"open"), "unterminated string literal");
    assert_eq!(message("m.e.f == \"open\\"), "unterminated string literal");
    assert_eq!(message("m.e.f == 1.2.3"), "bad float '1.2.3'");
    assert_eq!(message("m.e.f == -."), "bad float '-.'");
    assert_eq!(message("m.e.f == -"), "bad int '-'");
    assert_eq!(
        message("m.e.f == 9223372036854775808"),
        "bad int '9223372036854775808'"
    );
    assert_eq!(message("m.e.f == @"), "unexpected character '@'");
    assert_eq!(message("m.e.f == é"), "unexpected character 'Ã'");
    assert_eq!(message("m.e.f == \u{20ac}"), "unexpected character 'â'");
    assert_eq!(message("m.e.f == \u{1f600}"), "unexpected character 'ð'");
    assert_eq!(message("m.e.f\u{a0}== 1"), "unexpected character 'Â'");
}

#[test]
fn messages_of_the_conditions() {
    assert_eq!(message(""), "empty expression");
    assert_eq!(message("   "), "empty expression");
    assert_eq!(message("(m.e.f == 1"), "expected ')'");
    assert_eq!(
        message("m.e.f == 1 m.e.g"),
        "trailing tokens after expression in 'm.e.f == 1 m.e.g'"
    );
    assert_eq!(message("m.f == 1"), "invalid field path 'm.f'");
    assert_eq!(message("!"), "expected field path, got None");
    assert_eq!(message("&& 1"), "expected field path, got Some(And)");
    assert_eq!(message("|"), "expected field path, got Some(Or)");
    assert_eq!(message(")"), "expected field path, got Some(RParen)");
    assert_eq!(message("true"), "expected field path, got Some(Bool(true))");
    assert_eq!(message("false"), "expected field path, got Some(Bool(false))");
    assert_eq!(message("-12"), "expected field path, got Some(Int(-12))");
    assert_eq!(message("1.50"), "expected field path, got Some(Float(1.5))");
    assert_eq!(
        message("\"a\\\"\\t\u{7f}\""),
        "expected field path, got Some(Str(\"a\\\"\\t\\u{7f}\"))"
    );
    assert_eq!(message("m.e.f"), "expected comparison operator, got None");
    assert_eq!(
        message("m.e.f m.e.g"),
        "expected comparison operator, got Some(Path(\"m.e.g\"))"
    );
    assert_eq!(
        message("m.e.f !"),
        "expected comparison operator, got Some(Not)"
    );
    assert_eq!(
        message("m.e.f ("),
        "expected comparison operator, got Some(LParen)"
    );
    assert_eq!(message("m.e.f =="), "expected value literal, got None");
    let ops = [
        ("==", "Eq"),
        ("!=", "Ne"),
        ("<", "Lt"),
        (">", "Gt"),
        ("<=", "Le"),
        (">=", "Ge"),
        ("contains", "Contains"),
        ("startsWith", "StartsWith"),
    ];
    for (text, name) in ops {
        assert_eq!(
            message(&format!("m.e.f == {text}")),
            format!("expected value literal, got Some(Op({name}))")
        );
    }
}

fn refused(doc: &str) -> String {
    parse_source(doc, default_window(), &floats(&[])).unwrap_err()
}

#[test]
fn messages_of_the_lines() {
    assert_eq!(
        refused("Detection:\nR:\n- R:\n"),
        "line 3: duplicate Detection group 'R'"
    );
    assert_eq!(
        refused("Action:\nR:\nR:\n"),
        "line 3: duplicate Action group 'R'"
    );
    assert_eq!(refused("\n\nR:\n"), "line 3: group 'R' outside any section");
    assert_eq!(
        refused("Detection:\nR:\nwindow: soon\n"),
        "line 3: bad window 'soon'"
    );
    assert_eq!(
        refused("Detection:\nwindow: 1s\n"),
        "line 2: 'window:' only valid inside a Detection group"
    );
    assert_eq!(
        refused("Action:\nR:\nwindow: 1s\n"),
        "line 3: 'window:' only valid inside a Detection group"
    );
    assert_eq!(
        refused("Detection:\nR:\nthrottle: often\n"),
        "line 3: bad throttle 'often'"
    );
    assert_eq!(
        refused("throttle: 1/min\n"),
        "line 1: 'throttle:' only valid inside a Detection group"
    );
    assert_eq!(refused("include net\n"), "line 1: include needs a \"path\"");
    assert_eq!(
        refused("include \"net.waza\"\n"),
        "line 1: include has no base directory"
    );
    assert_eq!(
        refused("Detection:\nm.e.f == 1\n"),
        "line 2: condition outside any Detection group"
    );
    assert_eq!(
        refused("Action:\nlog\n"),
        "line 2: action outside any Action group"
    );
    assert_eq!(refused("log\n"), "line 1: content outside any section");
    assert_eq!(
        refused("Detection:\nR:\nm.e.f\n"),
        "line 3: expected comparison operator, got None"
    );
    assert_eq!(
        refused("Action:\nR:\nshout \"x\"\n"),
        "line 3: unknown action 'shout'"
    );
    assert_eq!(
        refused("Detection:\nR:\nm.e.f == 1\n"),
        "rule 'R' has a Detection group but no matching Action group (a rule with no actions never produces output)"
    );
    assert_eq!(
        refused("Detection:\nR:\nm.e.f == 1\nAction:\nR:\n"),
        "rule 'R' has a Detection group but no matching Action group (a rule with no actions never produces output)"
    );
}

#[test]
fn parse_error_shows_its_line() {
    let e = ParseError {
        line: 12,
        col: 3,
        message: "bad window 'x'".to_string(),
    };
    assert_eq!(e.display(), "line 12: bad window 'x'");
    assert_eq!(e.clone(), e);
}

// ---------------------------------------------------------------------
// Values
// ---------------------------------------------------------------------

fn value(line: &str, texts: &[&str]) -> RuleValue {
    match parse_expression(line, &floats(texts)).unwrap() {
        Condition::Compare { value, .. } => value,
        other => panic!("expected a comparison, got {:?}", other),
    }
}

#[test]
fn literals_have_their_values() {
    assert_eq!(
        value("m.e.f == -9223372036854775808", &[]),
        RuleValue::Int(i64::MIN)
    );
    assert_eq!(value("m.e.f == 007", &[]), RuleValue::Int(7));
    assert_eq!(
        value("m.e.f >= -0.25", &["-0.25"]),
        RuleValue::Float(Float {
            bits: (-0.25f64).to_bits()
        })
    );
    assert_eq!(
        value(r#"m.e.f == "a\n\t\"\\\qé#""#, &[]),
        RuleValue::Str("a\n\t\"\\qé#".to_string())
    );
    assert_eq!(value("m.e.f == false", &[]), RuleValue::Bool(false));
}

#[test]
fn one_bar_is_an_or() {
    let c = parse_expression("m.e.a == 1|m.e.b == 2", &floats(&[])).unwrap();
    assert!(matches!(c, Condition::Or(_, _)));
}

#[test]
fn operators_group_to_the_left() {
    let c = parse_expression("m.e.a == 1 && m.e.b == 2 && m.e.c == 3", &floats(&[])).unwrap();
    match c {
        Condition::And(left, right) => {
            assert!(matches!(*left, Condition::And(_, _)));
            assert!(matches!(*right, Condition::Compare { .. }));
        }
        other => panic!("expected a conjunction, got {:?}", other),
    }
    let c = parse_expression("!!m.e.a == 1 || m.e.b == 2", &floats(&[])).unwrap();
    match c {
        Condition::Or(left, _) => match *left {
            Condition::Not(inner) => assert!(matches!(*inner, Condition::Not(_))),
            other => panic!("expected a negation, got {:?}", other),
        },
        other => panic!("expected a disjunction, got {:?}", other),
    }
}

#[test]
fn durations_at_their_limits() {
    assert_eq!(
        parse_duration("  +5 s "),
        Some(Duration::from_secs(5))
    );
    assert_eq!(parse_duration("0"), Some(Duration { nanos: 0 }));
    assert_eq!(
        parse_duration("18446744073709551615ms"),
        Some(Duration::from_millis(u64::MAX))
    );
    assert_eq!(parse_duration("18446744073709551616"), None);
    assert_eq!(
        parse_duration("307445734561825860m"),
        Some(Duration::from_secs(18446744073709551600))
    );
    assert_eq!(parse_duration("307445734561825861m"), None);
    assert_eq!(
        parse_duration("5124095576030431h"),
        Some(Duration::from_secs(18446744073709551600))
    );
    assert_eq!(parse_duration("5124095576030432h"), None);
    assert_eq!(parse_duration(""), None);
    assert_eq!(parse_duration("s"), None);
    assert_eq!(parse_duration("-1s"), None);
    assert_eq!(parse_duration("1.5s"), None);
    assert_eq!(parse_duration("2ms").unwrap().nanos, 2_000_000);
    assert_eq!(parse_duration("2s").unwrap().nanos, 2_000_000_000);
}

#[test]
fn throttles_at_their_limits() {
    let per = |text: &str| parse_throttle(text).map(|t| t.per);
    assert_eq!(per("1/sec"), Some(Duration::from_secs(1)));
    assert_eq!(per("1/s"), Some(Duration::from_secs(1)));
    assert_eq!(per("1/m"), Some(Duration::from_secs(60)));
    assert_eq!(per("1/h"), Some(Duration::from_secs(3600)));
    assert_eq!(per(" 1 / 250ms "), Some(Duration::from_millis(250)));
    assert_eq!(per("1/0"), None);
    assert_eq!(per("1/0ms"), None);
    assert_eq!(per("1/"), None);
    assert_eq!(per("1/2/3"), None);
    assert_eq!(per("4294967296/s"), None);
    assert_eq!(parse_throttle("4294967295/s").unwrap().max, u32::MAX);
}

#[test]
fn actions_and_their_texts() {
    assert_eq!(parse_action("log"), Ok(Action::Log));
    assert_eq!(parse_action("  log  now "), Ok(Action::Log));
    for word in ["kill", "killProcess", "kill_process"] {
        assert_eq!(parse_action(word), Ok(Action::KillProcess));
    }
    let alert = |line: &str| parse_action(line);
    let text = |t: &str| Ok(Action::Alert(t.to_string()));
    assert_eq!(alert(r#"alert "a \"b\"" rest"#), text("a \"b\""));
    assert_eq!(alert("alert plain words"), text("plain words"));
    assert_eq!(alert("alert \"open"), text("open"));
    assert_eq!(alert("alert ends\""), text("ends"));
    assert_eq!(alert("alert"), text(""));
    assert_eq!(
        parse_action("Log"),
        Err("unknown action 'Log'".to_string())
    );
    assert_eq!(parse_action(""), Err("unknown action ''".to_string()));
}

// ---------------------------------------------------------------------
// Documents
// ---------------------------------------------------------------------

fn rules(doc: &str) -> Vec<Rule> {
    parse_source(doc, default_window(), &floats(&[])).unwrap()
}

#[test]
fn an_empty_document_has_no_rules() {
    assert!(rules("").is_empty());
    assert!(rules("# only a comment\n\n  -\n").is_empty());
    assert!(rules("Detection:\nAction:\n").is_empty());
}

#[test]
fn indentation_and_case_of_sections_mean_nothing() {
    let doc = "      - DETECTION :\r\nR:::\r\n\t- m.e.f == 1\r\n- action:\r\n- R:\r\nlog";
    let parsed = rules(doc);
    assert_eq!(parsed.len(), 1);
    assert_eq!(parsed[0].name, "R");
    assert_eq!(parsed[0].conditions.len(), 1);
    assert_eq!(parsed[0].actions, vec![Action::Log]);
    assert_eq!(parsed[0].throttle, None);
}

#[test]
fn a_group_without_a_window_has_the_default() {
    let doc = "Detection:\nA:\nm.e.f == 1\nB:\nwindow 2s\nwindow: 300ms\nm.e.f == 1\nAction:\nB:\nlog\nA:\nkill\n";
    let parsed = rules(doc);
    assert_eq!(parsed[0].name, "A");
    assert_eq!(parsed[0].window, Duration::from_secs(5));
    assert_eq!(parsed[0].actions, vec![Action::KillProcess]);
    assert_eq!(parsed[1].name, "B");
    assert_eq!(parsed[1].window, Duration::from_millis(300));
    let doc = "Detection:\nA:\nm.e.f == 1\nAction:\nA:\nlog\n";
    let parsed = parse_source(doc, Duration::from_secs(30), &floats(&[])).unwrap();
    assert_eq!(parsed[0].window, Duration::from_secs(30));
}

#[test]
fn a_keyword_is_a_whole_word() {
    let doc = "Detection:\nA:\nwindow.e.f == 1\nAction:\nA:\nlog\n";
    assert_eq!(rules(doc)[0].conditions.len(), 1);
    assert_eq!(
        refused("Detection:\nA:\nwindows: 1s\n"),
        "line 3: unexpected character ':'"
    );
}

#[test]
fn a_rule_may_have_no_condition() {
    let doc = "Detection:\nA:\nAction:\nA:\nlog\n";
    assert!(rules(doc)[0].conditions.is_empty());
}

#[test]
fn comments_end_where_a_string_is_open() {
    let doc = "Detection: # here\nA: # and here\nm.e.f == \"#\\\"#\" # \"\nAction:#\nA:\nalert \"#1\" # x\n";
    let parsed = rules(doc);
    match &parsed[0].conditions[0] {
        Condition::Compare { value, .. } => {
            assert_eq!(value, &RuleValue::Str("#\"#".to_string()))
        }
        other => panic!("expected a comparison, got {:?}", other),
    }
    assert_eq!(parsed[0].actions, vec![Action::Alert("#1".to_string())]);
}

// ---------------------------------------------------------------------
// Files
// ---------------------------------------------------------------------

fn group(name: &str, includes: &[&str]) -> String {
    let mut doc = format!("Detection:\n{name}:\nm.e.f == 1\n");
    for path in includes {
        doc.push_str(&format!("include \"{path}\"\n"));
    }
    doc.push_str(&format!("Action:\n{name}:\nlog\n"));
    doc
}

#[test]
fn included_rules_follow_and_come_once() {
    let files = vec![
        file("", "a", "a", "/a", &group("A", &["b", "c", "./b"])),
        file("a", "b", "b", "/b", &group("B", &["c"])),
        file("a", "c", "c", "/c", &group("C", &[])),
        file("a", "./b", "./b", "/b", "never parsed"),
        file("b", "c", "c", "/c", &group("C", &[])),
    ];
    let parsed = parse_file(&files, "a", &floats(&[])).unwrap();
    let names: Vec<&str> = parsed.iter().map(|r| r.name.as_str()).collect();
    assert_eq!(names, ["A", "B", "C"]);
}

#[test]
fn a_file_that_includes_itself_is_refused() {
    let files = vec![
        file("", "a", "a", "/a", &group("A", &["a"])),
        file("a", "a", "./a", "/a", &group("A", &["a"])),
    ];
    assert_eq!(
        parse_file(&files, "a", &floats(&[])).unwrap_err(),
        Stop::Failed("circular include: /a".to_string())
    );
}

#[test]
fn a_file_that_cannot_be_read_is_an_error() {
    let mut files = vec![file("", "a", "a", "/a", &group("A", &["b"]))];
    files.push(SourceFile {
        request: Request {
            from: "a".to_string(),
            rel: "b".to_string(),
        },
        path: "dir/b".to_string(),
        canon: "dir/b".to_string(),
        content: Err("no such file".to_string()),
    });
    assert_eq!(
        parse_file(&files, "a", &floats(&[])).unwrap_err(),
        Stop::Failed("read dir/b: no such file".to_string())
    );
}

#[test]
fn the_window_reaches_included_files() {
    let files = vec![
        file("", "a", "a", "/a", &group("A", &["b"])),
        file("a", "b", "b", "/b", &group("B", &[])),
    ];
    let parsed =
        parse_file_with_window(&files, "a", Duration::from_secs(9), &floats(&[])).unwrap();
    assert!(parsed.iter().all(|r| r.window == Duration::from_secs(9)));
    let parsed = parse_file(&files, "a", &floats(&[])).unwrap();
    assert!(parsed.iter().all(|r| r.window == Duration::from_secs(5)));
}

#[test]
fn a_missing_root_is_asked_for() {
    assert_eq!(
        parse_file(&Vec::new(), "a", &floats(&[])).unwrap_err(),
        Stop::Missing(Request {
            from: String::new(),
            rel: "a".to_string(),
        })
    );
}

#[test]
fn float_literals_are_what_a_table_must_tell() {
    let doc = "Detection:\nA:\nm.e.f == -0.5 || m.e.g < 12.25 # 9.9\nAction:\nA:\nlog\n";
    let texts = float_literals(doc);
    assert!(texts.contains(&"-0.5".to_string()));
    assert!(texts.contains(&"12.25".to_string()));
    assert!(!texts.contains(&"9.9".to_string()));
    let texts: Vec<&str> = texts.iter().map(|t| t.as_str()).collect();
    let parsed = parse_source(doc, default_window(), &floats(&texts)).unwrap();
    assert_eq!(parsed.len(), 1);
    assert_eq!(refused(doc), "line 3: bad float '-0.5'");
}

#[test]
fn a_file_is_done_once_it_was_read_and_not_otherwise() {
    let files = vec![
        file("", "ok", "ok", "/ok", &group("A", &[])),
        file("", "wrong", "wrong", "/wrong", "log\n"),
        SourceFile {
            request: Request {
                from: String::new(),
                rel: "gone".to_string(),
            },
            path: "gone".to_string(),
            canon: "/gone".to_string(),
            content: Err("no such file".to_string()),
        },
    ];
    let table = floats(&[]);
    let loader = Loader {
        files: &files,
        floats: &table,
        window: default_window(),
    };
    let mut stack = vec!["/open".to_string()];
    let mut done = vec!["/before".to_string()];
    let mut load = |rel: &str, stack: &mut Vec<String>| {
        let result = loader.parse_file_inner("", rel, stack, &mut done);
        (result.is_ok(), done.clone())
    };
    assert_eq!(load("none", &mut stack).1, ["/before"]);
    assert_eq!(load("gone", &mut stack).1, ["/before"]);
    let mut circular = vec!["/ok".to_string()];
    assert_eq!(load("ok", &mut circular), (false, vec!["/before".to_string()]));
    assert_eq!(circular, ["/ok"]);
    let (ok, after) = load("wrong", &mut stack);
    assert!(!ok);
    assert_eq!(after, ["/before", "/wrong"]);
    let (ok, after) = load("ok", &mut stack);
    assert!(ok);
    assert_eq!(after, ["/before", "/wrong", "/ok"]);
    assert_eq!(load("wrong", &mut stack), (true, after));
    assert_eq!(stack, ["/open"]);
}

#[test]
fn the_default_window_reaches_only_rules_without_one() {
    let doc = "Detection:\nA:\nm.e.f == 1\nB:\nwindow: 2s\nm.e.f == 1\nAction:\nA:\nlog\nB:\nlog\n";
    let laid_out = doc.replace('\n', "   # a comment\r\n\t  ");
    for text in [doc, laid_out.as_str()] {
        for secs in [1, 9] {
            let parsed = parse_source(text, Duration::from_secs(secs), &floats(&[])).unwrap();
            let windows: Vec<Duration> = parsed.iter().map(|r| r.window).collect();
            assert_eq!(windows, [Duration::from_secs(secs), Duration::from_secs(2)]);
        }
    }
}
