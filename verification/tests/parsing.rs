use rift::grammar::Failure;
use rift::pattern::PathRegex;
use rift::rules::{parse, Action, PathMatch};

#[test]
fn every_failure_has_its_message() {
    let cases: Vec<(&str, &str)> = vec![
        ("route \"abc", "line 1: unterminated string"),
        ("route \"abc\\", "line 1: dangling escape"),
        ("nonsense", "line 1: expected 'route'"),
        ("\"route\" -> respond 200", "line 1: expected 'route'"),
        ("route bogus \"x\" -> respond 200", "line 1: expected host/path/header or '->'"),
        ("route \"x\" -> respond 200", "line 1: expected host/path/header or '->'"),
        ("route path \"/\"", "line 1: missing '->' and action"),
        ("route", "line 1: missing '->' and action"),
        ("route path -> respond 200", "line 1: expected a quoted string"),
        ("route header \"a\" -> respond 200", "line 1: expected a quoted string"),
        ("route -> respond", "line 1: respond needs a status code"),
        ("route -> respond \"200\"", "line 1: respond needs a status code"),
        ("route -> respond 65536", "line 1: respond needs a status code"),
        ("route -> respond -1", "line 1: respond needs a status code"),
        ("route -> respond +", "line 1: respond needs a status code"),
        ("route ->", "line 1: expected 'upstream' or 'respond' after '->'"),
        ("route -> forward \"x\"", "line 1: expected 'upstream' or 'respond' after '->'"),
        ("route -> upstream", "line 1: expected a quoted string"),
    ];
    for (src, want) in cases {
        assert_eq!(parse(src).unwrap_err(), want, "source {src:?}");
    }
}

#[test]
fn bad_regex_message_carries_the_regex_error() {
    let err = parse("route path ~ \"(\" -> respond 200 \"x\"").unwrap_err();
    let detail = regex::Regex::new("(").unwrap_err().to_string();
    assert_eq!(err, format!("line 1: bad regex: {detail}"));
    match PathRegex::new("(".to_string()) {
        Err(m) => assert_eq!(m, detail),
        Ok(re) => panic!("{re:?}"),
    }
    let _ = Failure::BadRegex;
}

#[test]
fn line_numbers_count_every_line() {
    assert_eq!(parse("\n\n# c\nnonsense").unwrap_err(), "line 4: expected 'route'");
    assert_eq!(parse("\r\n\r\nnonsense\r\n").unwrap_err(), "line 3: expected 'route'");
    let mut src = String::new();
    for _ in 0..11 {
        src.push_str("route -> respond 200\n");
    }
    src.push_str("oops\n");
    assert_eq!(parse(&src).unwrap_err(), "line 12: expected 'route'");
}

#[test]
fn first_bad_line_is_reported() {
    assert_eq!(parse("route ->\nnonsense").unwrap_err(), "line 1: expected 'upstream' or 'respond' after '->'");
}

#[test]
fn empty_source_has_no_rules() {
    assert_eq!(parse("").unwrap().rules.len(), 0);
    assert_eq!(parse("\n  \n\t# x\n").unwrap().rules.len(), 0);
}

#[test]
fn respond_codes_and_bodies() {
    let r = parse("route -> respond +0200\nroute -> respond 65535 \"big\" trailing words").unwrap();
    assert_eq!(r.rules.len(), 2);
    match &r.rules[0].action {
        Action::Respond(c, b) => {
            assert_eq!(*c, 200);
            assert_eq!(b, "");
        }
        other => panic!("{other:?}"),
    }
    match &r.rules[1].action {
        Action::Respond(c, b) => {
            assert_eq!(*c, 65535);
            assert_eq!(b, "big");
        }
        other => panic!("{other:?}"),
    }
}

#[test]
fn matchers_are_read_into_the_rule() {
    let r = parse(
        "route host \"A.com\" path \"/p\" header \"X-A\" \"1\" header \"X-B\" \"2\" -> upstream \"http://u\"",
    )
    .unwrap();
    let rule = &r.rules[0];
    assert_eq!(rule.host.as_deref(), Some("A.com"));
    match &rule.path {
        Some(PathMatch::Prefix(p)) => assert_eq!(p, "/p"),
        other => panic!("{other:?}"),
    }
    assert_eq!(
        rule.headers,
        vec![("X-A".to_string(), "1".to_string()), ("X-B".to_string(), "2".to_string())]
    );
    match &rule.action {
        Action::Upstream(u) => assert_eq!(u, "http://u"),
        other => panic!("{other:?}"),
    }
}

#[test]
fn later_host_and_path_replace_earlier_ones() {
    let r = parse("route host \"a\" host \"b\" path \"/x\" path ~ \"^/y$\" -> respond 200").unwrap();
    let rule = &r.rules[0];
    assert_eq!(rule.host.as_deref(), Some("b"));
    match &rule.path {
        Some(PathMatch::Regex(re)) => assert_eq!(re.as_str(), "^/y$"),
        other => panic!("{other:?}"),
    }
}

#[test]
fn blocks_of_lines_concatenate() {
    let a = "route path \"/a\" -> respond 201";
    let b = "route path \"/b\" -> respond 202\nroute -> respond 203";
    let ab = format!("{a}\n{b}");
    let ra = parse(a).unwrap();
    let rb = parse(b).unwrap();
    let rab = parse(&ab).unwrap();
    assert_eq!(rab.rules.len(), ra.rules.len() + rb.rules.len());
    for (i, rule) in rab.rules.iter().enumerate() {
        let other = if i < ra.rules.len() { &ra.rules[i] } else { &rb.rules[i - ra.rules.len()] };
        assert_eq!(format!("{rule:?}"), format!("{other:?}"));
    }
}

#[test]
fn failure_in_second_block_counts_lines_of_the_first() {
    let a = "route -> respond 200\n\n# note\n";
    let b = "route -> respond 201\nnonsense";
    let whole = format!("{a}{b}");
    assert_eq!(parse(b).unwrap_err(), "line 2: expected 'route'");
    assert_eq!(parse(&whole).unwrap_err(), "line 5: expected 'route'");
}

#[test]
fn quoted_text_with_escapes_comes_back_unchanged() {
    let text = "say \"hi\"\\now\nthen";
    let quoted = format!(
        "route -> respond 200 \"{}\"",
        text.replace('\\', "\\\\").replace('"', "\\\"").replace('\n', "\\n")
    );
    let r = parse(&quoted).unwrap();
    match &r.rules[0].action {
        Action::Respond(_, body) => assert_eq!(body, text),
        other => panic!("{other:?}"),
    }
}

#[test]
fn joining_configs_with_a_newline_joins_their_tables() {
    let b = "route -> respond 203";
    for a in ["route -> respond 201", "route -> respond 201\r", "route -> respond 201\n", "", "# only a comment"] {
        let ra = parse(a).unwrap();
        let rb = parse(b).unwrap();
        let rab = parse(&format!("{a}\n{b}")).unwrap();
        assert_eq!(rab.rules.len(), ra.rules.len() + rb.rules.len(), "{a:?}");
        let got: Vec<String> = rab.rules.iter().map(|r| format!("{r:?}")).collect();
        let want: Vec<String> = ra.rules.iter().chain(rb.rules.iter()).map(|r| format!("{r:?}")).collect();
        assert_eq!(got, want, "{a:?}");
    }
}

#[test]
fn joined_config_reports_errors_of_the_second_at_shifted_lines() {
    let b = "route -> respond 200\nnonsense";
    assert_eq!(parse(&format!("route -> respond 201\n{b}")).unwrap_err(), "line 3: expected 'route'");
    assert_eq!(parse(&format!("route -> respond 201\n\n{b}")).unwrap_err(), "line 4: expected 'route'");
    assert_eq!(parse(&format!("\n{b}")).unwrap_err(), "line 3: expected 'route'");
    let bad = "route path ~ \"(\" -> respond 200";
    let alone = parse(bad).unwrap_err();
    let joined = parse(&format!("route -> respond 201\n{bad}")).unwrap_err();
    assert_eq!(joined, alone.replacen("line 1", "line 2", 1));
}
