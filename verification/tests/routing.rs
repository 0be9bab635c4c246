use rift::rules::{parse, Action};

#[test]
fn regex_paths_are_searched_not_anchored() {
    let r = parse("route path ~ \"v[0-9]\" -> respond 200\nroute path ~ \"^/a$\" -> respond 201").unwrap();
    assert!(matches!(r.route(None, "/api/v2/x", &[]), Some(Action::Respond(200, _))));
    assert!(matches!(r.route(None, "/a", &[]), Some(Action::Respond(201, _))));
    assert!(r.route(None, "/ab", &[]).is_none());
}

#[test]
fn host_matching_ignores_ascii_case_only() {
    let r = parse("route host \"Api.Example.com\" -> respond 200").unwrap();
    assert!(r.route(Some("api.example.COM"), "/", &[]).is_some());
    assert!(r.route(Some("api.example.co"), "/", &[]).is_none());
    assert!(r.route(None, "/", &[]).is_none());
    let r = parse("route host \"\u{e9}.fr\" -> respond 200").unwrap();
    assert!(r.route(Some("\u{e9}.FR"), "/", &[]).is_some());
    assert!(r.route(Some("\u{c9}.fr"), "/", &[]).is_none());
}

#[test]
fn prefix_is_a_char_prefix() {
    let r = parse("route path \"/api\" -> respond 200").unwrap();
    assert!(r.route(None, "/api", &[]).is_some());
    assert!(r.route(None, "/apiary", &[]).is_some());
    assert!(r.route(None, "/ap", &[]).is_none());
    assert!(r.route(None, "", &[]).is_none());
}

#[test]
fn header_names_are_lowercased_on_the_rule_side() {
    let r = parse("route header \"X-Env\" \"prod\" header \"x-team\" \"a\" -> respond 200").unwrap();
    let both = vec![
        ("x-team".to_string(), "a".to_string()),
        ("x-env".to_string(), "prod".to_string()),
    ];
    assert!(r.route(None, "/", &both).is_some());
    let upper = vec![
        ("X-Env".to_string(), "prod".to_string()),
        ("x-team".to_string(), "a".to_string()),
    ];
    assert!(r.route(None, "/", &upper).is_none());
    let one = vec![("x-env".to_string(), "prod".to_string())];
    assert!(r.route(None, "/", &one).is_none());
    let wrong_case_value = vec![
        ("x-env".to_string(), "PROD".to_string()),
        ("x-team".to_string(), "a".to_string()),
    ];
    assert!(r.route(None, "/", &wrong_case_value).is_none());
}

#[test]
fn catch_all_matches_everything() {
    let r = parse("route -> upstream \"http://fallback\"").unwrap();
    let hs = vec![("a".to_string(), "b".to_string())];
    assert!(r.route(None, "", &[]).is_some());
    assert!(r.route(Some("x"), "/y", &hs).is_some());
}

#[test]
fn first_matching_rule_is_chosen_not_the_most_specific() {
    let r = parse(
        "route path \"/\" -> respond 200\nroute path \"/api\" -> respond 201\nroute host \"h\" -> respond 202",
    )
    .unwrap();
    assert!(matches!(r.route(Some("h"), "/api", &[]), Some(Action::Respond(200, _))));
    assert!(matches!(r.route(Some("h"), "x", &[]), Some(Action::Respond(202, _))));
    assert!(r.route(Some("g"), "x", &[]).is_none());
}

#[test]
fn matches_checks_each_rule_alone() {
    let r = parse("route host \"h\" path \"/p\" -> respond 200").unwrap();
    let rule = &r.rules[0];
    assert!(rule.matches(Some("H"), "/p/q", &[]));
    assert!(!rule.matches(Some("H"), "/q", &[]));
    assert!(!rule.matches(Some("g"), "/p", &[]));
}
